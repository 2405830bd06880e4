//! What runs keep of the context: every existential variable declared in it
//! stays declared, unsolved or solved, and every solution stays, each in the
//! same scope it was declared in.
use vstd::prelude::*;
use crate::types::{Element, Expr, Type, free_exists, is_monotype, open_at};
use crate::context::{CtxState, apply_fuel, last_exist, pop_until, splice, wf_type};
use crate::semantics::{
    Run, articulation, check_run, infer_app_run, infer_run, inst_l_run, inst_r_run, leave_scope, st_fresh, st_push,
    st_with, subtype_run,
};
use crate::laws::{
    ends_with_scopes, is_scope, lemma_check_keeps_scopes, lemma_infer_keeps_scopes, lemma_inst_l_keeps_scopes,
    lemma_inst_r_keeps_scopes, lemma_scopes_concat,
    lemma_split_then_restore, lemma_subtype_keeps_scopes, scopes,
};

verus! {

/// Declarations of existential variables: unsolved or solved.
pub open spec fn is_decl(e: Element) -> bool {
    e is Exist || e is Solved
}

/// `e` is what `d` may have become: an unsolved variable stays unsolved or
/// is solved; a solution stays as it is.
pub open spec fn successor(d: Element, e: Element) -> bool {
    match d {
        Element::Exist(n) => match e {
            Element::Exist(m) => m == n,
            Element::Solved(m, _) => m == n,
            _ => false,
        },
        Element::Solved(n, t) => e == Element::Solved(n, t),
        _ => false,
    }
}

/// The number of scope elements before position `j`.
pub open spec fn scope_depth(s: Seq<Element>, j: int) -> nat {
    scopes(s.take(j)).len()
}

/// Every declaration of `old` has a successor in `new` under as many scope
/// elements as it had.
#[verifier::opaque]
pub open spec fn decls_kept(old: Seq<Element>, new: Seq<Element>) -> bool {
    forall|i: int|
        0 <= i < old.len() && is_decl(#[trigger] old[i]) ==> exists|j: int|
            0 <= j < new.len() && successor(old[i], #[trigger] new[j]) && scope_depth(new, j) == scope_depth(old, i)
}

/// A finished run keeps the declarations of `old`.
pub open spec fn ends_keeping<T>(r: Run<T>, old: Seq<Element>) -> bool {
    match r {
        Run::Done(_, s) => decls_kept(old, s.elems),
        Run::Stuck => true,
    }
}

proof fn lemma_depth_mono(s: Seq<Element>, j1: int, j2: int)
    requires
        0 <= j1 <= j2 <= s.len(),
    ensures
        scope_depth(s, j1) <= scope_depth(s, j2),
    decreases j2 - j1,
{
    if j1 < j2 {
        lemma_depth_mono(s, j1, j2 - 1);
        assert(s.take(j2).drop_last() =~= s.take(j2 - 1));
    }
}

proof fn lemma_depth_full(s: Seq<Element>)
    ensures
        scope_depth(s, s.len() as int) == scopes(s).len(),
{
    assert(s.take(s.len() as int) =~= s);
}

proof fn lemma_depth_prefix(x: Seq<Element>, y: Seq<Element>, j: int)
    requires
        0 <= j <= x.len(),
    ensures
        scope_depth(x + y, j) == scope_depth(x, j),
{
    assert((x + y).take(j) =~= x.take(j));
}

proof fn lemma_depth_after(x: Seq<Element>, y: Seq<Element>, k: int)
    requires
        0 <= k <= y.len(),
    ensures
        scope_depth(x + y, x.len() + k) == scopes(x).len() + scope_depth(y, k),
{
    assert((x + y).take(x.len() + k) =~= x + y.take(k));
    lemma_scopes_concat(x, y.take(k));
}

proof fn lemma_successor_is_decl(d: Element, e: Element)
    requires
        successor(d, e),
    ensures
        is_decl(d),
        is_decl(e),
        !is_scope(e),
{
}

proof fn lemma_kept_refl(s: Seq<Element>)
    ensures
        decls_kept(s, s),
{
    reveal(decls_kept);
    assert forall|i: int| 0 <= i < s.len() && is_decl(#[trigger] s[i]) implies exists|j: int|
        0 <= j < s.len() && successor(s[i], #[trigger] s[j]) && scope_depth(s, j) == scope_depth(s, i) by {
        assert(successor(s[i], s[i]));
    }
}

proof fn lemma_kept_trans(a: Seq<Element>, b: Seq<Element>, c: Seq<Element>)
    requires
        decls_kept(a, b),
        decls_kept(b, c),
    ensures
        decls_kept(a, c),
{
    reveal(decls_kept);
    assert forall|i: int| 0 <= i < a.len() && is_decl(#[trigger] a[i]) implies exists|k: int|
        0 <= k < c.len() && successor(a[i], #[trigger] c[k]) && scope_depth(c, k) == scope_depth(a, i) by {
        let j = choose|j: int| 0 <= j < b.len() && successor(a[i], #[trigger] b[j]) && scope_depth(b, j) == scope_depth(a, i);
        lemma_successor_is_decl(a[i], b[j]);
        let k = choose|k: int| 0 <= k < c.len() && successor(b[j], #[trigger] c[k]) && scope_depth(c, k) == scope_depth(b, j);
        assert(successor(a[i], c[k]));
    }
}

proof fn lemma_kept_extend(x: Seq<Element>, y: Seq<Element>)
    ensures
        decls_kept(x, x + y),
{
    reveal(decls_kept);
    assert forall|i: int| 0 <= i < x.len() && is_decl(#[trigger] x[i]) implies exists|j: int|
        0 <= j < (x + y).len() && successor(x[i], #[trigger] (x + y)[j]) && scope_depth(x + y, j) == scope_depth(x, i) by {
        assert((x + y)[i] == x[i]);
        assert(successor(x[i], x[i]));
        lemma_depth_prefix(x, y, i);
    }
}

proof fn lemma_kept_push(x: Seq<Element>, e: Element)
    ensures
        decls_kept(x, x.push(e)),
{
    assert(x.push(e) =~= x + seq![e]);
    lemma_kept_extend(x, seq![e]);
}

/// Where leaving a scope cuts the stack: at the last scope element, `e`.
proof fn lemma_pop_position(s: Seq<Element>, e: Element) -> (p: int)
    requires
        is_scope(e),
        scopes(s).len() > 0,
        scopes(s).last() == e,
    ensures
        0 <= p < s.len(),
        s[p] == e,
        pop_until(s, e) == Some(s.take(p)),
        scope_depth(s, p + 1) == scopes(s).len(),
    decreases s.len(),
{
    if s.last() == e {
        let p = s.len() - 1;
        assert(s.drop_last() =~= s.take(p));
        lemma_depth_full(s);
        assert(s.take(p + 1) =~= s);
        p
    } else {
        assert(!is_scope(s.last()));
        assert(scopes(s) == scopes(s.drop_last()));
        let p = lemma_pop_position(s.drop_last(), e);
        assert(s.drop_last().take(p) =~= s.take(p));
        assert(s.drop_last().take(p + 1) =~= s.take(p + 1));
        assert(s.drop_last()[p] == s[p]);
        assert(scope_depth(s.drop_last(), p + 1) == scope_depth(s, p + 1));
        p
    }
}

/// Leaving a scope keeps every declaration made before the scope was
/// entered.
proof fn lemma_kept_leave(old: Seq<Element>, s: Seq<Element>, e: Element)
    requires
        is_scope(e),
        decls_kept(old, s),
        scopes(s) == scopes(old).push(e),
    ensures
        pop_until(s, e) matches Some(q) && decls_kept(old, q),
{
    reveal(decls_kept);
    assert(scopes(s).last() == e);
    let p = lemma_pop_position(s, e);
    let q = s.take(p);
    assert forall|i: int| 0 <= i < old.len() && is_decl(#[trigger] old[i]) implies exists|j: int|
        0 <= j < q.len() && successor(old[i], #[trigger] q[j]) && scope_depth(q, j) == scope_depth(old, i) by {
        let j = choose|j: int| 0 <= j < s.len() && successor(old[i], #[trigger] s[j]) && scope_depth(s, j) == scope_depth(old, i);
        lemma_successor_is_decl(old[i], s[j]);
        lemma_depth_mono(old, i, old.len() as int);
        lemma_depth_full(old);
        if j > p {
            lemma_depth_mono(s, p + 1, j);
        }
        assert(j != p);
        assert(j < p);
        assert(q[j] == s[j]);
        assert(q.take(j) =~= s.take(j));
    }
}

proof fn lemma_keep_leave<T>(r: Run<T>, old: Seq<Element>, e: Element)
    requires
        is_scope(e),
        ends_keeping(r, old),
        ends_with_scopes(r, scopes(old).push(e)),
    ensures
        ends_keeping(leave_scope(r, e), old),
{
    if let Run::Done(_, s) = r {
        lemma_kept_leave(old, s.elems, e);
    }
}

proof fn lemma_keep_chain<T>(r: Run<T>, old: Seq<Element>, mid: Seq<Element>)
    requires
        decls_kept(old, mid),
        ends_keeping(r, mid),
    ensures
        ends_keeping(r, old),
{
    if let Run::Done(_, s) = r {
        lemma_kept_trans(old, mid, s.elems);
    }
}

/// Two stacks with scope elements at the same positions have the same scope
/// depth everywhere.
proof fn lemma_same_shape_depth(x: Seq<Element>, y: Seq<Element>, j: int)
    requires
        x.len() == y.len(),
        forall|k: int| 0 <= k < x.len() ==> is_scope(#[trigger] x[k]) == is_scope(y[k]),
        forall|k: int| 0 <= k < x.len() && is_scope(#[trigger] x[k]) ==> x[k] == y[k],
        0 <= j <= x.len(),
    ensures
        scopes(x.take(j)) == scopes(y.take(j)),
    decreases j,
{
    if j > 0 {
        lemma_same_shape_depth(x, y, j - 1);
        assert(x.take(j).drop_last() =~= x.take(j - 1));
        assert(y.take(j).drop_last() =~= y.take(j - 1));
        assert(x.take(j).last() == x[j - 1]);
        assert(y.take(j).last() == y[j - 1]);
    }
}

/// Solving an unsolved variable in place keeps every declaration.
proof fn lemma_kept_solve(elems: Seq<Element>, alpha: usize, a: Type)
    requires
        last_exist(elems, alpha) is Some,
    ensures
        ({
            let idx = last_exist(elems, alpha).unwrap();
            decls_kept(
                elems,
                elems.subrange(0, idx).push(Element::Solved(alpha, a)) + elems.subrange(idx + 1, elems.len() as int),
            )
        }),
{
    reveal(decls_kept);
    crate::context::lemma_last_exist_bounds(elems, alpha);
    let idx = last_exist(elems, alpha).unwrap();
    let n = elems.subrange(0, idx).push(Element::Solved(alpha, a)) + elems.subrange(idx + 1, elems.len() as int);
    assert(n =~= elems.update(idx, Element::Solved(alpha, a)));
    assert forall|i: int| 0 <= i < elems.len() && is_decl(#[trigger] elems[i]) implies exists|j: int|
        0 <= j < n.len() && successor(elems[i], #[trigger] n[j]) && scope_depth(n, j) == scope_depth(elems, i) by {
        lemma_same_shape_depth(elems, n, i);
        assert(successor(elems[i], n[i]));
    }
}

/// Replacing an unsolved variable by elements that open no scope, one of
/// which is what the variable became, keeps every declaration.
proof fn lemma_kept_splice(elems: Seq<Element>, x: usize, ins: Seq<Element>, k: int)
    requires
        scopes(ins) == Seq::<Element>::empty(),
        0 <= k < ins.len(),
        successor(Element::Exist(x), ins[k]),
    ensures
        splice(elems, x, ins) matches Some(r) ==> decls_kept(elems, r),
{
    reveal(decls_kept);
    crate::context::lemma_last_exist_bounds(elems, x);
    if let Some(idx) = last_exist(elems, x) {
        let pre = elems.subrange(0, idx);
        let post = elems.subrange(idx + 1, elems.len() as int);
        let r = pre + ins + post;
        assert(elems =~= pre + seq![Element::Exist(x)] + post);
        assert forall|i: int| 0 <= i < elems.len() && is_decl(#[trigger] elems[i]) implies exists|j: int|
            0 <= j < r.len() && successor(elems[i], #[trigger] r[j]) && scope_depth(r, j) == scope_depth(elems, i) by {
            if i < idx {
                assert(r[i] == elems[i]);
                assert(successor(elems[i], elems[i]));
                lemma_depth_prefix(pre, ins + post, i);
                assert(r =~= pre + (ins + post));
                lemma_depth_prefix(pre, seq![Element::Exist(x)] + post, i);
                assert(elems =~= pre + (seq![Element::Exist(x)] + post));
            } else if i == idx {
                let j = idx + k;
                assert(r[j] == ins[k]);
                assert(r =~= pre + (ins + post));
                lemma_depth_after(pre, ins + post, k);
                lemma_depth_prefix(ins, post, k);
                assert(ins.take(k).len() <= ins.len());
                lemma_depth_mono(ins, k, ins.len() as int);
                lemma_depth_full(ins);
                assert(elems =~= pre + (seq![Element::Exist(x)] + post));
                lemma_depth_after(pre, seq![Element::Exist(x)] + post, 0);
                assert((seq![Element::Exist(x)] + post).take(0) =~= Seq::<Element>::empty());
                assert(ins.take(0) =~= Seq::<Element>::empty());
                assert(scope_depth(seq![Element::Exist(x)] + post, 0) == 0);
            } else {
                let m = i - idx - 1;
                let j = idx + ins.len() + m;
                assert(r[j] == post[m]);
                assert(elems[i] == post[m]);
                assert(successor(elems[i], elems[i]));
                lemma_depth_after(pre + ins, post, m);
                lemma_scopes_concat(pre, ins);
                assert(scopes(ins) =~= Seq::<Element>::empty());
                lemma_depth_after(pre + seq![Element::Exist(x)], post, m);
                lemma_scopes_concat(pre, seq![Element::Exist(x)]);
                assert(seq![Element::Exist(x)].drop_last() =~= Seq::<Element>::empty());
                assert(scopes(seq![Element::Exist(x)]) == scopes(Seq::<Element>::empty()));
            }
        }
    }
}

proof fn lemma_scopes_push(x: Seq<Element>, e: Element)
    ensures
        scopes(x.push(e)) == if is_scope(e) { scopes(x).push(e) } else { scopes(x) },
{
    assert(x.push(e).drop_last() =~= x);
}

proof fn lemma_kept_articulation(elems: Seq<Element>, alpha: usize, a1: usize, a2: usize)
    ensures
        splice(elems, alpha, articulation(alpha, a1, a2)) matches Some(r) ==> decls_kept(elems, r),
{
    let ins = articulation(alpha, a1, a2);
    crate::laws::lemma_scopes_articulation(alpha, a1, a2);
    assert(ins[2] == Element::Solved(alpha, Type::Arrow(Box::new(Type::Exist(a1)), Box::new(Type::Exist(a2)))));
    lemma_kept_splice(elems, alpha, ins, 2);
}

proof fn lemma_kept_reach(elems: Seq<Element>, beta: usize, alpha: usize)
    ensures
        splice(elems, beta, seq![Element::Solved(beta, Type::Exist(alpha))]) matches Some(r) ==> decls_kept(elems, r),
{
    let ins = seq![Element::Solved(beta, Type::Exist(alpha))];
    crate::laws::lemma_scopes_single(Element::Solved(beta, Type::Exist(alpha)));
    lemma_kept_splice(elems, beta, ins, 0);
}

/// Subtyping only ever solves: every existential variable declared before a
/// finished run is still declared after it, unsolved or solved, under as
/// many scopes as before, and every solution is still there.
pub proof fn lemma_subtype_keeps_decls(fuel: nat, st: CtxState, a: Type, b: Type)
    ensures
        ends_keeping(subtype_run(fuel, st, a, b), st.elems),
    decreases fuel,
{
    if fuel > 0 {
        let g = (fuel - 1) as nat;
        match (a, b) {
            (Type::Unit, Type::Unit) => { lemma_kept_refl(st.elems); },
            (Type::Var(x), Type::Var(y)) if x == y => { lemma_kept_refl(st.elems); },
            (Type::Exist(x), Type::Exist(y)) if x == y => { lemma_kept_refl(st.elems); },
            (Type::Arrow(a1, a2), Type::Arrow(b1, b2)) => {
                lemma_subtype_keeps_decls(g, st, *b1, *a1);
                if let Run::Done(Ok(_), s1) = subtype_run(g, st, *b1, *a1) {
                    if let (Some(x), Some(y)) = (apply_fuel(s1.elems, *a2, g), apply_fuel(s1.elems, *b2, g)) {
                        lemma_subtype_keeps_decls(g, s1, x, y);
                        lemma_keep_chain(subtype_run(g, s1, x, y), st.elems, s1.elems);
                    }
                }
            },
            (Type::Univ(body), _) => {
                let alpha = st.ev as usize;
                let s1 = st_push(st_push(st_fresh(st, 1), Element::Marker(alpha)), Element::Exist(alpha));
                let inner = subtype_run(g, s1, open_at(*body, 0, alpha), b);
                lemma_scopes_push(st.elems, Element::Marker(alpha));
                lemma_scopes_push(st.elems.push(Element::Marker(alpha)), Element::Exist(alpha));
                assert(s1.elems =~= st.elems + seq![Element::Marker(alpha), Element::Exist(alpha)]);
                lemma_kept_extend(st.elems, seq![Element::Marker(alpha), Element::Exist(alpha)]);
                lemma_subtype_keeps_decls(g, s1, open_at(*body, 0, alpha), b);
                lemma_subtype_keeps_scopes(g, s1, open_at(*body, 0, alpha), b);
                lemma_keep_chain(inner, st.elems, s1.elems);
                lemma_keep_leave(inner, st.elems, Element::Marker(alpha));
            },
            (_, Type::Univ(body)) => {
                let s1 = st_push(st_fresh(st, 1), Element::Var);
                let inner = subtype_run(g, s1, a, *body);
                lemma_scopes_push(st.elems, Element::Var);
                lemma_kept_push(st.elems, Element::Var);
                lemma_subtype_keeps_decls(g, s1, a, *body);
                lemma_subtype_keeps_scopes(g, s1, a, *body);
                lemma_keep_chain(inner, st.elems, s1.elems);
                lemma_keep_leave(inner, st.elems, Element::Var);
            },
            (Type::Exist(alpha), _) if !free_exists(b).contains(alpha) => {
                lemma_inst_l_keeps_decls(g, st, alpha, b);
            },
            (_, Type::Exist(alpha)) if !free_exists(a).contains(alpha) => {
                lemma_inst_r_keeps_decls(g, st, a, alpha);
            },
            _ => { lemma_kept_refl(st.elems); },
        }
    }
}

/// A finished left instantiation only ever solves.
pub proof fn lemma_inst_l_keeps_decls(fuel: nat, st: CtxState, alpha: usize, a: Type)
    ensures
        ends_keeping(inst_l_run(fuel, st, alpha, a), st.elems),
    decreases fuel,
{
    if fuel > 0 {
        let g = (fuel - 1) as nat;
        lemma_kept_refl(st.elems);
        if let Some(idx) = last_exist(st.elems, alpha) {
            lemma_kept_solve(st.elems, alpha, a);
            if !(is_monotype(a) && wf_type(st.elems.subrange(0, idx), a)) {
                match a {
                    Type::Arrow(t1, t2) => {
                        let a1 = st.ev as usize;
                        let a2 = (st.ev + 1) as usize;
                        let s2 = st_fresh(st, 2);
                        lemma_kept_articulation(s2.elems, alpha, a1, a2);
                        if let Some(elems) = splice(s2.elems, alpha, articulation(alpha, a1, a2)) {
                            let s3 = st_with(s2, elems);
                            lemma_inst_r_keeps_decls(g, s3, *t1, a1);
                            lemma_keep_chain(inst_r_run(g, s3, *t1, a1), st.elems, s3.elems);
                            if let Run::Done(Ok(_), s4) = inst_r_run(g, s3, *t1, a1) {
                                if let Some(t2a) = apply_fuel(s4.elems, *t2, g) {
                                    lemma_inst_l_keeps_decls(g, s4, a2, t2a);
                                    lemma_keep_chain(inst_l_run(g, s4, a2, t2a), st.elems, s4.elems);
                                }
                            }
                        }
                    },
                    Type::Univ(body) => {
                        let s1 = st_push(st, Element::Var);
                        let inner = inst_l_run(g, s1, alpha, *body);
                        lemma_scopes_push(st.elems, Element::Var);
                        lemma_kept_push(st.elems, Element::Var);
                        lemma_inst_l_keeps_decls(g, s1, alpha, *body);
                        lemma_inst_l_keeps_scopes(g, s1, alpha, *body);
                        lemma_keep_chain(inner, st.elems, s1.elems);
                        lemma_keep_leave(inner, st.elems, Element::Var);
                    },
                    Type::Exist(beta) => {
                        lemma_kept_reach(st.elems, beta, alpha);
                    },
                    _ => {},
                }
            }
        }
    }
}

/// A finished right instantiation only ever solves.
pub proof fn lemma_inst_r_keeps_decls(fuel: nat, st: CtxState, a: Type, alpha: usize)
    ensures
        ends_keeping(inst_r_run(fuel, st, a, alpha), st.elems),
    decreases fuel,
{
    if fuel > 0 {
        let g = (fuel - 1) as nat;
        lemma_kept_refl(st.elems);
        if let Some(idx) = last_exist(st.elems, alpha) {
            lemma_kept_solve(st.elems, alpha, a);
            if !(is_monotype(a) && wf_type(st.elems.subrange(0, idx), a)) {
                match a {
                    Type::Arrow(t1, t2) => {
                        let a1 = st.ev as usize;
                        let a2 = (st.ev + 1) as usize;
                        let s2 = st_fresh(st, 2);
                        lemma_kept_articulation(s2.elems, alpha, a1, a2);
                        if let Some(elems) = splice(s2.elems, alpha, articulation(alpha, a1, a2)) {
                            let s3 = st_with(s2, elems);
                            lemma_inst_l_keeps_decls(g, s3, a1, *t1);
                            lemma_keep_chain(inst_l_run(g, s3, a1, *t1), st.elems, s3.elems);
                            if let Run::Done(Ok(_), s4) = inst_l_run(g, s3, a1, *t1) {
                                if let Some(t2a) = apply_fuel(s4.elems, *t2, g) {
                                    lemma_inst_r_keeps_decls(g, s4, t2a, a2);
                                    lemma_keep_chain(inst_r_run(g, s4, t2a, a2), st.elems, s4.elems);
                                }
                            }
                        }
                    },
                    Type::Univ(body) => {
                        let beta = st.ev as usize;
                        let s1 = st_push(st_push(st_fresh(st, 1), Element::Marker(beta)), Element::Exist(beta));
                        let inner = inst_r_run(g, s1, open_at(*body, 0, beta), alpha);
                        lemma_scopes_push(st.elems, Element::Marker(beta));
                        lemma_scopes_push(st.elems.push(Element::Marker(beta)), Element::Exist(beta));
                        assert(s1.elems =~= st.elems + seq![Element::Marker(beta), Element::Exist(beta)]);
                        lemma_kept_extend(st.elems, seq![Element::Marker(beta), Element::Exist(beta)]);
                        lemma_inst_r_keeps_decls(g, s1, open_at(*body, 0, beta), alpha);
                        lemma_inst_r_keeps_scopes(g, s1, open_at(*body, 0, beta), alpha);
                        lemma_keep_chain(inner, st.elems, s1.elems);
                        lemma_keep_leave(inner, st.elems, Element::Marker(beta));
                    },
                    Type::Exist(beta) => {
                        lemma_kept_reach(st.elems, beta, alpha);
                    },
                    _ => {},
                }
            }
        }
    }
}

/// A finished synthesis only ever adds and solves existential variables.
pub proof fn lemma_infer_keeps_decls(fuel: nat, st: CtxState, e: Expr)
    ensures
        ends_keeping(infer_run(fuel, st, e), st.elems),
    decreases fuel,
{
    if fuel > 0 {
        let g = (fuel - 1) as nat;
        lemma_kept_refl(st.elems);
        match e {
            Expr::Ann(x, ty) => {
                lemma_check_keeps_decls(g, st, *x, *ty);
            },
            Expr::Abs(body) => {
                let alpha = st.ev as usize;
                let beta = (st.ev + 1) as usize;
                let s1 = st_push(
                    st_push(st_push(st_fresh(st, 2), Element::Exist(alpha)), Element::Exist(beta)),
                    Element::Ann(Type::Exist(alpha)),
                );
                let mid = st.elems.push(Element::Exist(alpha)).push(Element::Exist(beta));
                let inner = check_run(g, s1, *body, Type::Exist(beta));
                lemma_scopes_push(st.elems, Element::Exist(alpha));
                lemma_scopes_push(st.elems.push(Element::Exist(alpha)), Element::Exist(beta));
                lemma_scopes_push(mid, Element::Ann(Type::Exist(alpha)));
                lemma_kept_push(mid, Element::Ann(Type::Exist(alpha)));
                lemma_check_keeps_decls(g, s1, *body, Type::Exist(beta));
                lemma_check_keeps_scopes(g, s1, *body, Type::Exist(beta));
                lemma_keep_chain(inner, mid, s1.elems);
                lemma_keep_leave(inner, mid, Element::Ann(Type::Exist(alpha)));
                assert(mid =~= st.elems + seq![Element::Exist(alpha), Element::Exist(beta)]);
                lemma_kept_extend(st.elems, seq![Element::Exist(alpha), Element::Exist(beta)]);
                lemma_keep_chain(leave_scope(inner, Element::Ann(Type::Exist(alpha))), st.elems, mid);
            },
            Expr::App(e1, e2) => {
                lemma_infer_keeps_decls(g, st, *e1);
                if let Run::Done(Ok(t), s1) = infer_run(g, st, *e1) {
                    if let Some(t1) = apply_fuel(s1.elems, t, g) {
                        lemma_infer_app_keeps_decls(g, s1, t1, *e2);
                        lemma_keep_chain(infer_app_run(g, s1, t1, *e2), st.elems, s1.elems);
                    }
                }
            },
            _ => {},
        }
    }
}

/// A finished application synthesis only ever adds and solves existential
/// variables.
pub proof fn lemma_infer_app_keeps_decls(fuel: nat, st: CtxState, ty: Type, e2: Expr)
    ensures
        ends_keeping(infer_app_run(fuel, st, ty, e2), st.elems),
    decreases fuel,
{
    if fuel > 0 {
        let g = (fuel - 1) as nat;
        lemma_kept_refl(st.elems);
        match ty {
            Type::Exist(alpha) => {
                let a1 = st.ev as usize;
                let a2 = (st.ev + 1) as usize;
                let s2 = st_fresh(st, 2);
                lemma_kept_articulation(s2.elems, alpha, a1, a2);
                if let Some(elems) = splice(s2.elems, alpha, articulation(alpha, a1, a2)) {
                    let s3 = st_with(s2, elems);
                    lemma_check_keeps_decls(g, s3, e2, Type::Exist(a1));
                    lemma_keep_chain(check_run(g, s3, e2, Type::Exist(a1)), st.elems, s3.elems);
                }
            },
            Type::Arrow(a, _) => {
                lemma_check_keeps_decls(g, st, e2, *a);
            },
            Type::Univ(a) => {
                let alpha = st.ev as usize;
                let s1 = st_push(st_fresh(st, 1), Element::Exist(alpha));
                lemma_kept_push(st.elems, Element::Exist(alpha));
                lemma_infer_app_keeps_decls(g, s1, open_at(*a, 0, alpha), e2);
                lemma_keep_chain(infer_app_run(g, s1, open_at(*a, 0, alpha), e2), st.elems, s1.elems);
            },
            _ => {},
        }
    }
}

/// Checking only ever adds and solves existential variables: every
/// declaration made before a finished check is still there after it,
/// unsolved or solved, under as many scopes as before.
pub proof fn lemma_check_keeps_decls(fuel: nat, st: CtxState, e: Expr, a: Type)
    ensures
        ends_keeping(check_run(fuel, st, e, a), st.elems),
    decreases fuel,
{
    if fuel > 0 {
        let g = (fuel - 1) as nat;
        lemma_kept_refl(st.elems);
        match (e, a) {
            (Expr::Unit, Type::Unit) => {},
            (Expr::Abs(body), Type::Arrow(a1, a2)) => {
                let s1 = st_push(st, Element::Ann(*a1));
                let inner = check_run(g, s1, *body, *a2);
                lemma_scopes_push(st.elems, Element::Ann(*a1));
                lemma_kept_push(st.elems, Element::Ann(*a1));
                lemma_check_keeps_decls(g, s1, *body, *a2);
                lemma_check_keeps_scopes(g, s1, *body, *a2);
                lemma_keep_chain(inner, st.elems, s1.elems);
                lemma_keep_leave(inner, st.elems, Element::Ann(*a1));
            },
            (_, Type::Univ(ty)) => {
                let s1 = st_push(st, Element::Var);
                let inner = check_run(g, s1, e, *ty);
                lemma_scopes_push(st.elems, Element::Var);
                lemma_kept_push(st.elems, Element::Var);
                lemma_check_keeps_decls(g, s1, e, *ty);
                lemma_check_keeps_scopes(g, s1, e, *ty);
                lemma_keep_chain(inner, st.elems, s1.elems);
                lemma_keep_leave(inner, st.elems, Element::Var);
            },
            _ => {
                lemma_infer_keeps_decls(g, st, e);
                if let Run::Done(Ok(t), s1) = infer_run(g, st, e) {
                    if let (Some(x), Some(y)) = (apply_fuel(s1.elems, t, g), apply_fuel(s1.elems, a, g)) {
                        lemma_subtype_keeps_decls(g, s1, x, y);
                        lemma_keep_chain(subtype_run(g, s1, x, y), st.elems, s1.elems);
                    }
                }
            },
        }
    }
}

} // verus!

verus! {

/// The universal variables and term annotations of the stack, in order.
pub open spec fn binders(elems: Seq<Element>) -> Seq<Element>
    decreases elems.len(),
{
    if elems.len() == 0 {
        Seq::empty()
    } else if elems.last() is Var || elems.last() is Ann {
        binders(elems.drop_last()).push(elems.last())
    } else {
        binders(elems.drop_last())
    }
}

/// The binders of a stack are the binders among its scope elements.
pub proof fn lemma_binders_of_scopes(elems: Seq<Element>)
    ensures
        binders(elems) == binders(scopes(elems)),
    decreases elems.len(),
{
    if elems.len() > 0 {
        lemma_binders_of_scopes(elems.drop_last());
        if is_scope(elems.last()) {
            assert(scopes(elems) == scopes(elems.drop_last()).push(elems.last()));
            assert(scopes(elems).drop_last() =~= scopes(elems.drop_last()));
        }
    }
}

/// Runs that keep the scope elements keep the universal variables and term
/// annotations, in order: every scope pushed for a binder is popped again.
pub proof fn lemma_binders_kept(old: Seq<Element>, new: Seq<Element>)
    requires
        scopes(new) == scopes(old),
    ensures
        binders(new) == binders(old),
{
    lemma_binders_of_scopes(old);
    lemma_binders_of_scopes(new);
}

/// Declarations kept, stated position by position: every unsolved variable
/// of `old` is in `new`, unsolved or solved, and every solution of `old` is
/// in `new`.
pub proof fn lemma_decls_kept_plainly(old: Seq<Element>, new: Seq<Element>)
    requires
        decls_kept(old, new),
    ensures
        forall|n: usize| old.contains(Element::Exist(n)) ==> new.contains(Element::Exist(n))
            || exists|t: Type| #[trigger] new.contains(Element::Solved(n, t)),
        forall|n: usize, t: Type| old.contains(Element::Solved(n, t)) ==> new.contains(Element::Solved(n, t)),
{
    reveal(decls_kept);
    assert forall|n: usize| old.contains(Element::Exist(n)) implies new.contains(Element::Exist(n))
        || exists|t: Type| #[trigger] new.contains(Element::Solved(n, t)) by {
        let i = choose|i: int| 0 <= i < old.len() && old[i] == Element::Exist(n);
        assert(is_decl(old[i]));
        let j = choose|j: int| 0 <= j < new.len() && successor(old[i], #[trigger] new[j]) && scope_depth(new, j) == scope_depth(old, i);
        if let Element::Solved(m, t) = new[j] {
            assert(new.contains(Element::Solved(n, t)));
        } else {
            assert(new.contains(Element::Exist(n)));
        }
    }
    assert forall|n: usize, t: Type| old.contains(Element::Solved(n, t)) implies new.contains(Element::Solved(n, t)) by {
        let i = choose|i: int| 0 <= i < old.len() && old[i] == Element::Solved(n, t);
        assert(is_decl(old[i]));
        let j = choose|j: int| 0 <= j < new.len() && successor(old[i], #[trigger] new[j]) && scope_depth(new, j) == scope_depth(old, i);
        assert(new[j] == Element::Solved(n, t));
    }
}

} // verus!
