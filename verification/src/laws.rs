//! Properties of the algorithm that hold of every input: what the lookups
//! give back of what was pushed, what leaving a scope restores, what
//! applying a context leaves behind, how substitution treats monotypes, and
//! that fresh existential variables are never handed out twice.
use vstd::prelude::*;
use crate::types::{Element, Expr, Type, free_exists, is_monotype, open_at, shift_above, subst_at};
use crate::context::{CtxState, apply_fuel, find_ann, find_tvar, last_exist, pop_until, solution_of, splice, wf_type};
use crate::semantics::{
    Run, articulation, check_run, lemma_subtype_mono, infer_app_run, infer_run, inst_l_run, inst_r_run, leave_scope, st_fresh, st_push, st_with,
    subtype_run,
};

verus! {

/// A run that finished left the counter of fresh existential variables at
/// least where it started.
pub open spec fn ends_at_or_after<T>(r: Run<T>, ev: nat) -> bool {
    match r {
        Run::Done(_, s) => s.ev >= ev,
        Run::Stuck => true,
    }
}

/// Fresh existential variables are unique: no finished subtyping run moves
/// the counter of fresh variables backwards.
pub proof fn lemma_subtype_fresh_monotone(fuel: nat, st: CtxState, a: Type, b: Type)
    ensures
        ends_at_or_after(subtype_run(fuel, st, a, b), st.ev),
    decreases fuel,
{
    if fuel > 0 {
        let g = (fuel - 1) as nat;
        match (a, b) {
            (Type::Unit, Type::Unit) => {},
            (Type::Var(x), Type::Var(y)) if x == y => {},
            (Type::Exist(x), Type::Exist(y)) if x == y => {},
            (Type::Arrow(a1, a2), Type::Arrow(b1, b2)) => {
                lemma_subtype_fresh_monotone(g, st, *b1, *a1);
                if let Run::Done(Ok(_), s1) = subtype_run(g, st, *b1, *a1) {
                    if let (Some(x), Some(y)) = (apply_fuel(s1.elems, *a2, g), apply_fuel(s1.elems, *b2, g)) {
                        lemma_subtype_fresh_monotone(g, s1, x, y);
                    }
                }
            },
            (Type::Univ(body), _) => {
                let alpha = st.ev as usize;
                let s1 = st_push(st_push(st_fresh(st, 1), Element::Marker(alpha)), Element::Exist(alpha));
                lemma_subtype_fresh_monotone(g, s1, open_at(*body, 0, alpha), b);
            },
            (_, Type::Univ(body)) => {
                lemma_subtype_fresh_monotone(g, st_push(st_fresh(st, 1), Element::Var), a, *body);
            },
            (Type::Exist(alpha), _) if !free_exists(b).contains(alpha) => {
                lemma_inst_l_fresh_monotone(g, st, alpha, b);
            },
            (_, Type::Exist(alpha)) if !free_exists(a).contains(alpha) => {
                lemma_inst_r_fresh_monotone(g, st, a, alpha);
            },
            _ => {},
        }
    }
}

/// No finished left instantiation moves the counter of fresh variables
/// backwards.
pub proof fn lemma_inst_l_fresh_monotone(fuel: nat, st: CtxState, alpha: usize, a: Type)
    ensures
        ends_at_or_after(inst_l_run(fuel, st, alpha, a), st.ev),
    decreases fuel,
{
    if fuel > 0 {
        let g = (fuel - 1) as nat;
        if let Some(idx) = last_exist(st.elems, alpha) {
            if !(is_monotype(a) && wf_type(st.elems.subrange(0, idx), a)) {
                if let Type::Arrow(t1, t2) = a {
                    let a1 = st.ev as usize;
                    let a2 = (st.ev + 1) as usize;
                    let s2 = st_fresh(st, 2);
                    if let Some(elems) = splice(s2.elems, alpha, articulation(alpha, a1, a2)) {
                        lemma_inst_r_fresh_monotone(g, st_with(s2, elems), *t1, a1);
                        if let Run::Done(Ok(_), s4) = inst_r_run(g, st_with(s2, elems), *t1, a1) {
                            if let Some(t2a) = apply_fuel(s4.elems, *t2, g) {
                                lemma_inst_l_fresh_monotone(g, s4, a2, t2a);
                            }
                        }
                    }
                } else if let Type::Univ(body) = a {
                    lemma_inst_l_fresh_monotone(g, st_push(st, Element::Var), alpha, *body);
                }
            }
        }
    }
}

/// No finished right instantiation moves the counter of fresh variables
/// backwards.
pub proof fn lemma_inst_r_fresh_monotone(fuel: nat, st: CtxState, a: Type, alpha: usize)
    ensures
        ends_at_or_after(inst_r_run(fuel, st, a, alpha), st.ev),
    decreases fuel,
{
    if fuel > 0 {
        let g = (fuel - 1) as nat;
        if let Some(idx) = last_exist(st.elems, alpha) {
            if !(is_monotype(a) && wf_type(st.elems.subrange(0, idx), a)) {
                if let Type::Arrow(t1, t2) = a {
                    let a1 = st.ev as usize;
                    let a2 = (st.ev + 1) as usize;
                    let s2 = st_fresh(st, 2);
                    if let Some(elems) = splice(s2.elems, alpha, articulation(alpha, a1, a2)) {
                        lemma_inst_l_fresh_monotone(g, st_with(s2, elems), a1, *t1);
                        if let Run::Done(Ok(_), s4) = inst_l_run(g, st_with(s2, elems), a1, *t1) {
                            if let Some(t2a) = apply_fuel(s4.elems, *t2, g) {
                                lemma_inst_r_fresh_monotone(g, s4, t2a, a2);
                            }
                        }
                    }
                } else if let Type::Univ(body) = a {
                    let beta = st.ev as usize;
                    let s1 = st_push(st_push(st_fresh(st, 1), Element::Marker(beta)), Element::Exist(beta));
                    lemma_inst_r_fresh_monotone(g, s1, open_at(*body, 0, beta), alpha);
                }
            }
        }
    }
}

/// No finished synthesis moves the counter of fresh variables backwards.
pub proof fn lemma_infer_fresh_monotone(fuel: nat, st: CtxState, e: Expr)
    ensures
        ends_at_or_after(infer_run(fuel, st, e), st.ev),
    decreases fuel,
{
    if fuel > 0 {
        let g = (fuel - 1) as nat;
        match e {
            Expr::Ann(x, ty) => {
                lemma_check_fresh_monotone(g, st, *x, *ty);
            },
            Expr::Abs(body) => {
                let alpha = st.ev as usize;
                let beta = (st.ev + 1) as usize;
                let s1 = st_push(
                    st_push(st_push(st_fresh(st, 2), Element::Exist(alpha)), Element::Exist(beta)),
                    Element::Ann(Type::Exist(alpha)),
                );
                lemma_check_fresh_monotone(g, s1, *body, Type::Exist(beta));
            },
            Expr::App(e1, e2) => {
                lemma_infer_fresh_monotone(g, st, *e1);
                if let Run::Done(Ok(a), s1) = infer_run(g, st, *e1) {
                    if let Some(a1) = apply_fuel(s1.elems, a, g) {
                        lemma_infer_app_fresh_monotone(g, s1, a1, *e2);
                    }
                }
            },
            _ => {},
        }
    }
}

/// No finished application synthesis moves the counter of fresh variables
/// backwards.
pub proof fn lemma_infer_app_fresh_monotone(fuel: nat, st: CtxState, ty: Type, e2: Expr)
    ensures
        ends_at_or_after(infer_app_run(fuel, st, ty, e2), st.ev),
    decreases fuel,
{
    if fuel > 0 {
        let g = (fuel - 1) as nat;
        match ty {
            Type::Exist(alpha) => {
                let a1 = st.ev as usize;
                let a2 = (st.ev + 1) as usize;
                let s2 = st_fresh(st, 2);
                if let Some(elems) = splice(s2.elems, alpha, articulation(alpha, a1, a2)) {
                    lemma_check_fresh_monotone(g, st_with(s2, elems), e2, Type::Exist(a1));
                }
            },
            Type::Arrow(a, _) => {
                lemma_check_fresh_monotone(g, st, e2, *a);
            },
            Type::Univ(a) => {
                let alpha = st.ev as usize;
                lemma_infer_app_fresh_monotone(
                    g,
                    st_push(st_fresh(st, 1), Element::Exist(alpha)),
                    open_at(*a, 0, alpha),
                    e2,
                );
            },
            _ => {},
        }
    }
}

/// No finished check moves the counter of fresh variables backwards.
pub proof fn lemma_check_fresh_monotone(fuel: nat, st: CtxState, e: Expr, a: Type)
    ensures
        ends_at_or_after(check_run(fuel, st, e, a), st.ev),
    decreases fuel,
{
    if fuel > 0 {
        let g = (fuel - 1) as nat;
        match (e, a) {
            (Expr::Unit, Type::Unit) => {},
            (Expr::Abs(body), Type::Arrow(a1, a2)) => {
                lemma_check_fresh_monotone(g, st_push(st, Element::Ann(*a1)), *body, *a2);
            },
            (_, Type::Univ(ty)) => {
                lemma_check_fresh_monotone(g, st_push(st, Element::Var), e, *ty);
            },
            _ => {
                lemma_infer_fresh_monotone(g, st, e);
                if let Run::Done(Ok(t), s1) = infer_run(g, st, e) {
                    if let (Some(x), Some(y)) = (apply_fuel(s1.elems, t, g), apply_fuel(s1.elems, a, g)) {
                        lemma_subtype_fresh_monotone(g, s1, x, y);
                    }
                }
            },
        }
    }
}

/// Looking up term variables counts annotations from the innermost binder:
/// after pushing `x : t`, index 0 is `t` and index `i + 1` is what index `i`
/// was before.
pub proof fn lemma_annotation_after_push(elems: Seq<Element>, t: Type, i: nat)
    ensures
        find_ann(elems.push(Element::Ann(t)), 0) == Some(t),
        find_ann(elems.push(Element::Ann(t)), i + 1) == find_ann(elems, i),
{
    assert(elems.push(Element::Ann(t)).drop_last() =~= elems);
}

/// Pushing anything but an annotation leaves every term variable lookup
/// unchanged.
pub proof fn lemma_annotation_after_other_push(elems: Seq<Element>, e: Element, i: nat)
    requires
        !(e is Ann),
    ensures
        find_ann(elems.push(e), i) == find_ann(elems, i),
{
    assert(elems.push(e).drop_last() =~= elems);
}

/// Universal type variables are counted from the innermost binder: after
/// pushing one, index 0 is bound and index `i + 1` is bound exactly when
/// index `i` was.
pub proof fn lemma_type_var_after_push(elems: Seq<Element>, i: nat)
    ensures
        find_tvar(elems.push(Element::Var), 0),
        find_tvar(elems.push(Element::Var), i + 1) == find_tvar(elems, i),
{
    assert(elems.push(Element::Var).drop_last() =~= elems);
}

/// Leaving a scope pops off exactly the stack growth since the scope was
/// entered, provided that growth holds no element equal to the one that
/// opened the scope.
pub proof fn lemma_leave_scope_restores(elems: Seq<Element>, e: Element, growth: Seq<Element>)
    requires
        !growth.contains(e),
    ensures
        pop_until(elems.push(e) + growth, e) == Some(elems),
    decreases growth.len(),
{
    if growth.len() == 0 {
        assert(elems.push(e) + growth =~= elems.push(e));
        assert(elems.push(e).drop_last() =~= elems);
    } else {
        let shorter = growth.drop_last();
        assert((elems.push(e) + growth).drop_last() =~= elems.push(e) + shorter);
        assert((elems.push(e) + growth).last() == growth.last());
        assert(growth.contains(growth.last()));
        assert forall|x: Element| shorter.contains(x) implies growth.contains(x) by {
            let k = choose|k: int| 0 <= k < shorter.len() && shorter[k] == x;
            assert(growth[k] == x);
        }
        lemma_leave_scope_restores(elems, e, shorter);
    }
}

/// Cutting the context at an unsolved existential variable and putting the
/// variable back gives the context unchanged.
pub proof fn lemma_split_then_restore(elems: Seq<Element>, alpha: usize)
    requires
        last_exist(elems, alpha) is Some,
    ensures
        ({
            let idx = last_exist(elems, alpha).unwrap();
            elems.subrange(0, idx).push(Element::Exist(alpha)) + elems.subrange(idx + 1, elems.len() as int) == elems
        }),
{
    crate::context::lemma_last_exist_bounds(elems, alpha);
    let idx = last_exist(elems, alpha).unwrap();
    assert(elems.subrange(0, idx).push(Element::Exist(alpha)) + elems.subrange(idx + 1, elems.len() as int) =~= elems);
}

/// No existential variable of `t` has a solution in the context.
pub open spec fn fully_applied(elems: Seq<Element>, t: Type) -> bool {
    forall|n: usize| #[trigger] free_exists(t).contains(n) ==> solution_of(elems, n) is None
}

/// Applying a context leaves no solved existential variable in the result.
pub proof fn lemma_apply_fully_applied(elems: Seq<Element>, t: Type, fuel: nat)
    requires
        apply_fuel(elems, t, fuel) is Some,
    ensures
        fully_applied(elems, apply_fuel(elems, t, fuel).unwrap()),
    decreases fuel, t,
{
    let r = apply_fuel(elems, t, fuel).unwrap();
    match t {
        Type::Arrow(a, b) => {
            lemma_apply_fully_applied(elems, *a, fuel);
            lemma_apply_fully_applied(elems, *b, fuel);
            let x = apply_fuel(elems, *a, fuel).unwrap();
            let y = apply_fuel(elems, *b, fuel).unwrap();
            assert(r == Type::Arrow(Box::new(x), Box::new(y)));
            assert(free_exists(r) == free_exists(x) + free_exists(y));
            assert forall|n: usize| #[trigger] free_exists(r).contains(n) implies solution_of(elems, n) is None by {
                let k = choose|k: int| 0 <= k < free_exists(r).len() && free_exists(r)[k] == n;
                if k < free_exists(x).len() {
                    assert(free_exists(x)[k] == n);
                    assert(free_exists(x).contains(n));
                } else {
                    assert(free_exists(y)[k - free_exists(x).len()] == n);
                    assert(free_exists(y).contains(n));
                }
            }
            assert(fully_applied(elems, r));
        },
        Type::Univ(a) => {
            lemma_apply_fully_applied(elems, *a, fuel);
            let x = apply_fuel(elems, *a, fuel).unwrap();
            assert(r == Type::Univ(Box::new(x)));
            assert(free_exists(r) == free_exists(x));
            assert(fully_applied(elems, r));
        },
        Type::Exist(n) => {
            if let Some(s) = solution_of(elems, n) {
                lemma_apply_fully_applied(elems, s, (fuel - 1) as nat);
            } else {
                assert forall|m: usize| #[trigger] free_exists(r).contains(m) implies solution_of(elems, m) is None by {
                    assert(free_exists(r) =~= seq![n]);
                    assert(free_exists(r)[0] == n);
                }
            }
        },
        _ => {
            assert(free_exists(r) =~= Seq::<usize>::empty());
        },
    }
}

/// A type without solved existential variables is its own application,
/// with no fuel needed.
pub proof fn lemma_apply_unsolved_is_identity(elems: Seq<Element>, t: Type)
    requires
        fully_applied(elems, t),
    ensures
        apply_fuel(elems, t, 0) == Some(t),
    decreases t,
{
    match t {
        Type::Arrow(a, b) => {
            assert forall|n: usize| #[trigger] free_exists(*a).contains(n) implies solution_of(elems, n) is None by {
                let k = choose|k: int| 0 <= k < free_exists(*a).len() && free_exists(*a)[k] == n;
                assert((free_exists(*a) + free_exists(*b))[k] == n);
                assert(free_exists(t).contains(n));
            }
            assert forall|n: usize| #[trigger] free_exists(*b).contains(n) implies solution_of(elems, n) is None by {
                let k = choose|k: int| 0 <= k < free_exists(*b).len() && free_exists(*b)[k] == n;
                assert((free_exists(*a) + free_exists(*b))[free_exists(*a).len() + k] == n);
                assert(free_exists(t).contains(n));
            }
            lemma_apply_unsolved_is_identity(elems, *a);
            lemma_apply_unsolved_is_identity(elems, *b);
        },
        Type::Univ(a) => {
            assert forall|n: usize| #[trigger] free_exists(*a).contains(n) implies solution_of(elems, n) is None by {
                assert(free_exists(t) == free_exists(*a));
                assert(free_exists(t).contains(n));
            }
            lemma_apply_unsolved_is_identity(elems, *a);
        },
        Type::Exist(n) => {
            assert(free_exists(t)[0] == n);
            assert(free_exists(t).contains(n));
        },
        _ => {},
    }
}

/// Applying a context twice gives what applying it once gives.
pub proof fn lemma_apply_idempotent(elems: Seq<Element>, t: Type, fuel: nat, fuel2: nat)
    requires
        apply_fuel(elems, t, fuel) is Some,
    ensures
        apply_fuel(elems, apply_fuel(elems, t, fuel).unwrap(), fuel2) == apply_fuel(elems, t, fuel),
{
    let r = apply_fuel(elems, t, fuel).unwrap();
    lemma_apply_fully_applied(elems, t, fuel);
    lemma_apply_unsolved_is_identity(elems, r);
    crate::context::lemma_apply_fuel_mono(elems, r, 0, fuel2);
}

/// Shifting type variables keeps the shape of a type: a monotype stays a
/// monotype and the existential variables stay the same.
pub proof fn lemma_shift_shape(s: Type, d: int, cutoff: int)
    ensures
        is_monotype(shift_above(s, d, cutoff)) == is_monotype(s),
        free_exists(shift_above(s, d, cutoff)) == free_exists(s),
    decreases s,
{
    match s {
        Type::Arrow(a, b) => {
            lemma_shift_shape(*a, d, cutoff);
            lemma_shift_shape(*b, d, cutoff);
        },
        Type::Univ(a) => {
            lemma_shift_shape(*a, d, cutoff + 1);
        },
        _ => {},
    }
}

/// Substituting a monotype into a monotype gives a monotype.
pub proof fn lemma_subst_monotype(t: Type, c: int, s: Type)
    requires
        is_monotype(t),
        is_monotype(s),
    ensures
        is_monotype(subst_at(t, c, s)),
    decreases t,
{
    match t {
        Type::Arrow(a, b) => {
            lemma_subst_monotype(*a, c, s);
            lemma_subst_monotype(*b, c, s);
        },
        Type::Var(_) => {
            lemma_shift_shape(s, c, 0);
        },
        _ => {},
    }
}

/// Opening a quantifier's body that is a monotype gives a monotype.
pub proof fn lemma_open_monotype(t: Type, c: int, alpha: usize)
    requires
        is_monotype(t),
    ensures
        is_monotype(open_at(t, c, alpha)),
    decreases t,
{
    if let Type::Arrow(a, b) = t {
        lemma_open_monotype(*a, c, alpha);
        lemma_open_monotype(*b, c, alpha);
    }
}

/// Opening a quantifier's body with `alpha` introduces no existential
/// variable but `alpha`.
pub proof fn lemma_open_exists(t: Type, c: int, alpha: usize, n: usize)
    requires
        free_exists(open_at(t, c, alpha)).contains(n),
    ensures
        free_exists(t).contains(n) || n == alpha,
    decreases t,
{
    match t {
        Type::Arrow(a, b) => {
            let x = open_at(*a, c, alpha);
            let y = open_at(*b, c, alpha);
            let k = choose|k: int| 0 <= k < free_exists(open_at(t, c, alpha)).len() && free_exists(open_at(t, c, alpha))[k] == n;
            assert(free_exists(open_at(t, c, alpha)) == free_exists(x) + free_exists(y));
            if k < free_exists(x).len() {
                assert(free_exists(x)[k] == n);
                lemma_open_exists(*a, c, alpha, n);
                if free_exists(*a).contains(n) {
                    let j = choose|j: int| 0 <= j < free_exists(*a).len() && free_exists(*a)[j] == n;
                    assert(free_exists(t)[j] == n);
                }
            } else {
                assert(free_exists(y)[k - free_exists(x).len()] == n);
                lemma_open_exists(*b, c, alpha, n);
                if free_exists(*b).contains(n) {
                    let j = choose|j: int| 0 <= j < free_exists(*b).len() && free_exists(*b)[j] == n;
                    assert(free_exists(t)[free_exists(*a).len() + j] == n);
                }
            }
        },
        Type::Univ(a) => {
            lemma_open_exists(*a, c + 1, alpha, n);
        },
        Type::Var(_) => {
            if free_exists(open_at(t, c, alpha)).len() > 0 {
                assert(free_exists(open_at(t, c, alpha))[0] == alpha);
            }
        },
        _ => {},
    }
}

/// Substitution introduces no existential variable beyond those of the type
/// and those of what is substituted.
pub proof fn lemma_subst_exists(t: Type, c: int, s: Type, n: usize)
    requires
        free_exists(subst_at(t, c, s)).contains(n),
    ensures
        free_exists(t).contains(n) || free_exists(s).contains(n),
    decreases t,
{
    match t {
        Type::Arrow(a, b) => {
            let x = subst_at(*a, c, s);
            let y = subst_at(*b, c, s);
            let k = choose|k: int| 0 <= k < free_exists(subst_at(t, c, s)).len() && free_exists(subst_at(t, c, s))[k] == n;
            assert(free_exists(subst_at(t, c, s)) == free_exists(x) + free_exists(y));
            if k < free_exists(x).len() {
                assert(free_exists(x)[k] == n);
                lemma_subst_exists(*a, c, s, n);
                if free_exists(*a).contains(n) {
                    let j = choose|j: int| 0 <= j < free_exists(*a).len() && free_exists(*a)[j] == n;
                    assert(free_exists(t)[j] == n);
                }
            } else {
                assert(free_exists(y)[k - free_exists(x).len()] == n);
                lemma_subst_exists(*b, c, s, n);
                if free_exists(*b).contains(n) {
                    let j = choose|j: int| 0 <= j < free_exists(*b).len() && free_exists(*b)[j] == n;
                    assert(free_exists(t)[free_exists(*a).len() + j] == n);
                }
            }
        },
        Type::Univ(a) => {
            lemma_subst_exists(*a, c + 1, s, n);
        },
        _ => {
            lemma_shift_shape(s, c, 0);
        },
    }
}

} // verus!

verus! {

/// The height of a type's syntax tree.
pub open spec fn height(t: Type) -> nat
    decreases t,
{
    match t {
        Type::Arrow(a, b) => 1 + if height(*a) >= height(*b) {
            height(*a)
        } else {
            height(*b)
        },
        Type::Univ(a) => 1 + height(*a),
        _ => 1,
    }
}

/// Subtyping is reflexive on monotypes whose existential variables are
/// unsolved: `a <: a` succeeds and leaves the context as it was.
pub proof fn lemma_subtype_reflexive_applied(fuel: nat, st: CtxState, a: Type)
    requires
        is_monotype(a),
        fully_applied(st.elems, a),
        fuel >= height(a),
    ensures
        subtype_run(fuel, st, a, a) == Run::Done(Ok::<(), crate::types::TypeError>(()), st),
    decreases a,
{
    if let Type::Arrow(a1, a2) = a {
        let g = (fuel - 1) as nat;
        assert forall|n: usize| #[trigger] free_exists(*a1).contains(n) implies solution_of(st.elems, n) is None by {
            let k = choose|k: int| 0 <= k < free_exists(*a1).len() && free_exists(*a1)[k] == n;
            assert((free_exists(*a1) + free_exists(*a2))[k] == n);
            assert(free_exists(a).contains(n));
        }
        assert forall|n: usize| #[trigger] free_exists(*a2).contains(n) implies solution_of(st.elems, n) is None by {
            let k = choose|k: int| 0 <= k < free_exists(*a2).len() && free_exists(*a2)[k] == n;
            assert((free_exists(*a1) + free_exists(*a2))[free_exists(*a1).len() + k] == n);
            assert(free_exists(a).contains(n));
        }
        lemma_subtype_reflexive_applied(g, st, *a1);
        lemma_apply_unsolved_is_identity(st.elems, *a2);
        crate::context::lemma_apply_fuel_mono(st.elems, *a2, 0, g);
        lemma_subtype_reflexive_applied(g, st, *a2);
    }
}

} // verus!

verus! {

/// The element declares no existential variable or marker numbered at or
/// above `ev`.
pub open spec fn declared_below(e: Element, ev: nat) -> bool {
    match e {
        Element::Exist(n) => n < ev,
        Element::Solved(n, _) => n < ev,
        Element::Marker(n) => n < ev,
        _ => true,
    }
}

/// Every existential variable and marker declared in the stack is numbered
/// below `ev`, so every number from `ev` on is fresh.
pub open spec fn fresh_from(elems: Seq<Element>, ev: nat) -> bool {
    forall|i: int| 0 <= i < elems.len() ==> declared_below(#[trigger] elems[i], ev)
}

/// A finished run leaves a context whose counter is above every number it
/// declares.
pub open spec fn ends_fresh<T>(r: Run<T>) -> bool {
    match r {
        Run::Done(_, s) => fresh_from(s.elems, s.ev),
        Run::Stuck => true,
    }
}

proof fn lemma_fresh_from_raise(elems: Seq<Element>, ev1: nat, ev2: nat)
    requires
        fresh_from(elems, ev1),
        ev1 <= ev2,
    ensures
        fresh_from(elems, ev2),
{
    assert forall|i: int| 0 <= i < elems.len() implies declared_below(#[trigger] elems[i], ev2) by {
        assert(declared_below(elems[i], ev1));
    }
}

proof fn lemma_fresh_from_push(elems: Seq<Element>, e: Element, ev: nat)
    requires
        fresh_from(elems, ev),
        declared_below(e, ev),
    ensures
        fresh_from(elems.push(e), ev),
{
    assert forall|i: int| 0 <= i < elems.push(e).len() implies declared_below(#[trigger] elems.push(e)[i], ev) by {
        if i < elems.len() {
            assert(elems.push(e)[i] == elems[i]);
        }
    }
}

proof fn lemma_fresh_from_subrange(elems: Seq<Element>, i: int, j: int, ev: nat)
    requires
        fresh_from(elems, ev),
        0 <= i <= j <= elems.len(),
    ensures
        fresh_from(elems.subrange(i, j), ev),
{
    assert forall|k: int| 0 <= k < elems.subrange(i, j).len() implies declared_below(
        #[trigger] elems.subrange(i, j)[k],
        ev,
    ) by {
        assert(elems.subrange(i, j)[k] == elems[i + k]);
    }
}

proof fn lemma_fresh_from_concat(x: Seq<Element>, y: Seq<Element>, ev: nat)
    requires
        fresh_from(x, ev),
        fresh_from(y, ev),
    ensures
        fresh_from(x + y, ev),
{
    assert forall|k: int| 0 <= k < (x + y).len() implies declared_below(#[trigger] (x + y)[k], ev) by {
        if k < x.len() {
            assert((x + y)[k] == x[k]);
        } else {
            assert((x + y)[k] == y[k - x.len()]);
        }
    }
}

proof fn lemma_pop_until_fresh(elems: Seq<Element>, e: Element, ev: nat)
    requires
        fresh_from(elems, ev),
    ensures
        pop_until(elems, e) matches Some(p) ==> fresh_from(p, ev),
    decreases elems.len(),
{
    if elems.len() > 0 {
        lemma_fresh_from_subrange(elems, 0, elems.len() - 1, ev);
        assert(elems.drop_last() =~= elems.subrange(0, elems.len() - 1));
        lemma_pop_until_fresh(elems.drop_last(), e, ev);
    }
}

proof fn lemma_leave_scope_fresh<T>(r: Run<T>, e: Element)
    requires
        ends_fresh(r),
    ensures
        ends_fresh(leave_scope(r, e)),
{
    if let Run::Done(_, s) = r {
        lemma_pop_until_fresh(s.elems, e, s.ev);
    }
}

proof fn lemma_declared_exist_is_below(elems: Seq<Element>, alpha: usize, ev: nat)
    requires
        fresh_from(elems, ev),
        last_exist(elems, alpha) is Some,
    ensures
        alpha < ev,
{
    crate::context::lemma_last_exist_bounds(elems, alpha);
    let idx = last_exist(elems, alpha).unwrap();
    assert(declared_below(elems[idx], ev));
}

proof fn lemma_splice_fresh(elems: Seq<Element>, exist: usize, ins: Seq<Element>, ev: nat)
    requires
        fresh_from(elems, ev),
        fresh_from(ins, ev),
    ensures
        splice(elems, exist, ins) matches Some(r) ==> fresh_from(r, ev),
{
    crate::context::lemma_last_exist_bounds(elems, exist);
    if let Some(idx) = last_exist(elems, exist) {
        lemma_fresh_from_subrange(elems, 0, idx, ev);
        lemma_fresh_from_subrange(elems, idx + 1, elems.len() as int, ev);
        lemma_fresh_from_concat(elems.subrange(0, idx), ins, ev);
        lemma_fresh_from_concat(elems.subrange(0, idx) + ins, elems.subrange(idx + 1, elems.len() as int), ev);
    }
}

proof fn lemma_solve_fresh(elems: Seq<Element>, alpha: usize, a: Type, ev: nat)
    requires
        fresh_from(elems, ev),
        last_exist(elems, alpha) is Some,
    ensures
        ({
            let idx = last_exist(elems, alpha).unwrap();
            fresh_from(
                elems.subrange(0, idx).push(Element::Solved(alpha, a)) + elems.subrange(idx + 1, elems.len() as int),
                ev,
            )
        }),
{
    crate::context::lemma_last_exist_bounds(elems, alpha);
    lemma_declared_exist_is_below(elems, alpha, ev);
    let idx = last_exist(elems, alpha).unwrap();
    lemma_fresh_from_subrange(elems, 0, idx, ev);
    lemma_fresh_from_subrange(elems, idx + 1, elems.len() as int, ev);
    lemma_fresh_from_push(elems.subrange(0, idx), Element::Solved(alpha, a), ev);
    lemma_fresh_from_concat(
        elems.subrange(0, idx).push(Element::Solved(alpha, a)),
        elems.subrange(idx + 1, elems.len() as int),
        ev,
    );
}

proof fn lemma_articulation_fresh(st: CtxState, alpha: usize)
    requires
        fresh_from(st.elems, st.ev),
        st.ev + 2 <= usize::MAX,
        alpha < st.ev,
    ensures
        ({
            let s2 = st_fresh(st, 2);
            splice(s2.elems, alpha, articulation(alpha, st.ev as usize, (st.ev + 1) as usize)) matches Some(r)
                ==> fresh_from(r, s2.ev)
        }),
{
    let s2 = st_fresh(st, 2);
    let ins = articulation(alpha, st.ev as usize, (st.ev + 1) as usize);
    lemma_fresh_from_raise(st.elems, st.ev, s2.ev);
    assert forall|k: int| 0 <= k < ins.len() implies declared_below(#[trigger] ins[k], s2.ev) by {}
    lemma_splice_fresh(s2.elems, alpha, ins, s2.ev);
}

} // verus!

verus! {

/// Fresh variables stay fresh: if every number the context declares is
/// below its counter, a finished subtyping run leaves a context of which
/// the same holds.
pub proof fn lemma_subtype_keeps_fresh(fuel: nat, st: CtxState, a: Type, b: Type)
    requires
        fresh_from(st.elems, st.ev),
    ensures
        ends_fresh(subtype_run(fuel, st, a, b)),
    decreases fuel,
{
    if fuel > 0 {
        let g = (fuel - 1) as nat;
        match (a, b) {
            (Type::Unit, Type::Unit) => {},
            (Type::Var(x), Type::Var(y)) if x == y => {},
            (Type::Exist(x), Type::Exist(y)) if x == y => {},
            (Type::Arrow(a1, a2), Type::Arrow(b1, b2)) => {
                lemma_subtype_keeps_fresh(g, st, *b1, *a1);
                if let Run::Done(Ok(_), s1) = subtype_run(g, st, *b1, *a1) {
                    if let (Some(x), Some(y)) = (apply_fuel(s1.elems, *a2, g), apply_fuel(s1.elems, *b2, g)) {
                        lemma_subtype_keeps_fresh(g, s1, x, y);
                    }
                }
            },
            (Type::Univ(body), _) => {
                if st.ev + 1 <= usize::MAX {
                    let alpha = st.ev as usize;
                    let s0 = st_fresh(st, 1);
                    lemma_fresh_from_raise(st.elems, st.ev, s0.ev);
                    lemma_fresh_from_push(s0.elems, Element::Marker(alpha), s0.ev);
                    lemma_fresh_from_push(s0.elems.push(Element::Marker(alpha)), Element::Exist(alpha), s0.ev);
                    let s1 = st_push(st_push(s0, Element::Marker(alpha)), Element::Exist(alpha));
                    lemma_subtype_keeps_fresh(g, s1, open_at(*body, 0, alpha), b);
                    lemma_leave_scope_fresh(subtype_run(g, s1, open_at(*body, 0, alpha), b), Element::Marker(alpha));
                }
            },
            (_, Type::Univ(body)) => {
                if st.ev + 1 <= usize::MAX {
                    let s0 = st_fresh(st, 1);
                    lemma_fresh_from_raise(st.elems, st.ev, s0.ev);
                    lemma_fresh_from_push(s0.elems, Element::Var, s0.ev);
                    let s1 = st_push(s0, Element::Var);
                    lemma_subtype_keeps_fresh(g, s1, a, *body);
                    lemma_leave_scope_fresh(subtype_run(g, s1, a, *body), Element::Var);
                }
            },
            (Type::Exist(alpha), _) if !free_exists(b).contains(alpha) => {
                lemma_inst_l_keeps_fresh(g, st, alpha, b);
            },
            (_, Type::Exist(alpha)) if !free_exists(a).contains(alpha) => {
                lemma_inst_r_keeps_fresh(g, st, a, alpha);
            },
            _ => {},
        }
    }
}

/// A finished left instantiation keeps every declared number below the
/// counter.
pub proof fn lemma_inst_l_keeps_fresh(fuel: nat, st: CtxState, alpha: usize, a: Type)
    requires
        fresh_from(st.elems, st.ev),
    ensures
        ends_fresh(inst_l_run(fuel, st, alpha, a)),
    decreases fuel,
{
    if fuel > 0 {
        let g = (fuel - 1) as nat;
        if let Some(idx) = last_exist(st.elems, alpha) {
            lemma_solve_fresh(st.elems, alpha, a, st.ev);
            lemma_declared_exist_is_below(st.elems, alpha, st.ev);
            if !(is_monotype(a) && wf_type(st.elems.subrange(0, idx), a)) {
                match a {
                    Type::Arrow(t1, t2) => {
                        if st.ev + 2 <= usize::MAX {
                            let a1 = st.ev as usize;
                            let a2 = (st.ev + 1) as usize;
                            let s2 = st_fresh(st, 2);
                            lemma_articulation_fresh(st, alpha);
                            lemma_fresh_from_raise(st.elems, st.ev, s2.ev);
                            if let Some(elems) = splice(s2.elems, alpha, articulation(alpha, a1, a2)) {
                                lemma_inst_r_keeps_fresh(g, st_with(s2, elems), *t1, a1);
                                if let Run::Done(Ok(_), s4) = inst_r_run(g, st_with(s2, elems), *t1, a1) {
                                    if let Some(t2a) = apply_fuel(s4.elems, *t2, g) {
                                        lemma_inst_l_keeps_fresh(g, s4, a2, t2a);
                                    }
                                }
                            }
                        }
                    },
                    Type::Univ(body) => {
                        lemma_fresh_from_push(st.elems, Element::Var, st.ev);
                        let s1 = st_push(st, Element::Var);
                        lemma_inst_l_keeps_fresh(g, s1, alpha, *body);
                        lemma_leave_scope_fresh(inst_l_run(g, s1, alpha, *body), Element::Var);
                    },
                    Type::Exist(beta) => {
                        let ins = seq![Element::Solved(beta, Type::Exist(alpha))];
                        if splice(st.elems, beta, ins) is Some {
                            lemma_declared_exist_is_below(st.elems, beta, st.ev);
                            assert forall|k: int| 0 <= k < ins.len() implies declared_below(#[trigger] ins[k], st.ev) by {}
                            lemma_splice_fresh(st.elems, beta, ins, st.ev);
                        }
                    },
                    _ => {},
                }
            }
        }
    }
}

/// A finished right instantiation keeps every declared number below the
/// counter.
pub proof fn lemma_inst_r_keeps_fresh(fuel: nat, st: CtxState, a: Type, alpha: usize)
    requires
        fresh_from(st.elems, st.ev),
    ensures
        ends_fresh(inst_r_run(fuel, st, a, alpha)),
    decreases fuel,
{
    if fuel > 0 {
        let g = (fuel - 1) as nat;
        if let Some(idx) = last_exist(st.elems, alpha) {
            lemma_solve_fresh(st.elems, alpha, a, st.ev);
            lemma_declared_exist_is_below(st.elems, alpha, st.ev);
            if !(is_monotype(a) && wf_type(st.elems.subrange(0, idx), a)) {
                match a {
                    Type::Arrow(t1, t2) => {
                        if st.ev + 2 <= usize::MAX {
                            let a1 = st.ev as usize;
                            let a2 = (st.ev + 1) as usize;
                            let s2 = st_fresh(st, 2);
                            lemma_articulation_fresh(st, alpha);
                            lemma_fresh_from_raise(st.elems, st.ev, s2.ev);
                            if let Some(elems) = splice(s2.elems, alpha, articulation(alpha, a1, a2)) {
                                lemma_inst_l_keeps_fresh(g, st_with(s2, elems), a1, *t1);
                                if let Run::Done(Ok(_), s4) = inst_l_run(g, st_with(s2, elems), a1, *t1) {
                                    if let Some(t2a) = apply_fuel(s4.elems, *t2, g) {
                                        lemma_inst_r_keeps_fresh(g, s4, t2a, a2);
                                    }
                                }
                            }
                        }
                    },
                    Type::Univ(body) => {
                        if st.ev + 1 <= usize::MAX {
                            let beta = st.ev as usize;
                            let s0 = st_fresh(st, 1);
                            lemma_fresh_from_raise(st.elems, st.ev, s0.ev);
                            lemma_fresh_from_push(s0.elems, Element::Marker(beta), s0.ev);
                            lemma_fresh_from_push(s0.elems.push(Element::Marker(beta)), Element::Exist(beta), s0.ev);
                            let s1 = st_push(st_push(s0, Element::Marker(beta)), Element::Exist(beta));
                            lemma_inst_r_keeps_fresh(g, s1, open_at(*body, 0, beta), alpha);
                            lemma_leave_scope_fresh(inst_r_run(g, s1, open_at(*body, 0, beta), alpha), Element::Marker(beta));
                        }
                    },
                    Type::Exist(beta) => {
                        let ins = seq![Element::Solved(beta, Type::Exist(alpha))];
                        if splice(st.elems, beta, ins) is Some {
                            lemma_declared_exist_is_below(st.elems, beta, st.ev);
                            assert forall|k: int| 0 <= k < ins.len() implies declared_below(#[trigger] ins[k], st.ev) by {}
                            lemma_splice_fresh(st.elems, beta, ins, st.ev);
                        }
                    },
                    _ => {},
                }
            }
        }
    }
}

/// A finished synthesis keeps every declared number below the counter.
pub proof fn lemma_infer_keeps_fresh(fuel: nat, st: CtxState, e: Expr)
    requires
        fresh_from(st.elems, st.ev),
    ensures
        ends_fresh(infer_run(fuel, st, e)),
    decreases fuel,
{
    if fuel > 0 {
        let g = (fuel - 1) as nat;
        match e {
            Expr::Ann(x, ty) => {
                lemma_check_keeps_fresh(g, st, *x, *ty);
            },
            Expr::Abs(body) => {
                if st.ev + 2 <= usize::MAX {
                    let alpha = st.ev as usize;
                    let beta = (st.ev + 1) as usize;
                    let s0 = st_fresh(st, 2);
                    lemma_fresh_from_raise(st.elems, st.ev, s0.ev);
                    lemma_fresh_from_push(s0.elems, Element::Exist(alpha), s0.ev);
                    lemma_fresh_from_push(s0.elems.push(Element::Exist(alpha)), Element::Exist(beta), s0.ev);
                    lemma_fresh_from_push(
                        s0.elems.push(Element::Exist(alpha)).push(Element::Exist(beta)),
                        Element::Ann(Type::Exist(alpha)),
                        s0.ev,
                    );
                    let s1 = st_push(
                        st_push(st_push(s0, Element::Exist(alpha)), Element::Exist(beta)),
                        Element::Ann(Type::Exist(alpha)),
                    );
                    lemma_check_keeps_fresh(g, s1, *body, Type::Exist(beta));
                    lemma_leave_scope_fresh(check_run(g, s1, *body, Type::Exist(beta)), Element::Ann(Type::Exist(alpha)));
                }
            },
            Expr::App(e1, e2) => {
                lemma_infer_keeps_fresh(g, st, *e1);
                if let Run::Done(Ok(a), s1) = infer_run(g, st, *e1) {
                    if let Some(a1) = apply_fuel(s1.elems, a, g) {
                        lemma_infer_app_keeps_fresh(g, s1, a1, *e2);
                    }
                }
            },
            _ => {},
        }
    }
}

/// A finished application synthesis keeps every declared number below the
/// counter.
pub proof fn lemma_infer_app_keeps_fresh(fuel: nat, st: CtxState, ty: Type, e2: Expr)
    requires
        fresh_from(st.elems, st.ev),
    ensures
        ends_fresh(infer_app_run(fuel, st, ty, e2)),
    decreases fuel,
{
    if fuel > 0 {
        let g = (fuel - 1) as nat;
        match ty {
            Type::Exist(alpha) => {
                if st.ev + 2 <= usize::MAX {
                    let a1 = st.ev as usize;
                    let a2 = (st.ev + 1) as usize;
                    let s2 = st_fresh(st, 2);
                    lemma_fresh_from_raise(st.elems, st.ev, s2.ev);
                    if let Some(elems) = splice(s2.elems, alpha, articulation(alpha, a1, a2)) {
                        lemma_declared_exist_is_below(s2.elems, alpha, st.ev);
                        lemma_articulation_fresh(st, alpha);
                        lemma_check_keeps_fresh(g, st_with(s2, elems), e2, Type::Exist(a1));
                    }
                }
            },
            Type::Arrow(a, _) => {
                lemma_check_keeps_fresh(g, st, e2, *a);
            },
            Type::Univ(a) => {
                if st.ev + 1 <= usize::MAX {
                    let alpha = st.ev as usize;
                    let s0 = st_fresh(st, 1);
                    lemma_fresh_from_raise(st.elems, st.ev, s0.ev);
                    lemma_fresh_from_push(s0.elems, Element::Exist(alpha), s0.ev);
                    lemma_infer_app_keeps_fresh(
                        g,
                        st_push(s0, Element::Exist(alpha)),
                        open_at(*a, 0, alpha),
                        e2,
                    );
                }
            },
            _ => {},
        }
    }
}

/// A finished check keeps every declared number below the counter.
pub proof fn lemma_check_keeps_fresh(fuel: nat, st: CtxState, e: Expr, a: Type)
    requires
        fresh_from(st.elems, st.ev),
    ensures
        ends_fresh(check_run(fuel, st, e, a)),
    decreases fuel,
{
    if fuel > 0 {
        let g = (fuel - 1) as nat;
        match (e, a) {
            (Expr::Unit, Type::Unit) => {},
            (Expr::Abs(body), Type::Arrow(a1, a2)) => {
                lemma_fresh_from_push(st.elems, Element::Ann(*a1), st.ev);
                lemma_check_keeps_fresh(g, st_push(st, Element::Ann(*a1)), *body, *a2);
                lemma_leave_scope_fresh(check_run(g, st_push(st, Element::Ann(*a1)), *body, *a2), Element::Ann(*a1));
            },
            (_, Type::Univ(ty)) => {
                lemma_fresh_from_push(st.elems, Element::Var, st.ev);
                lemma_check_keeps_fresh(g, st_push(st, Element::Var), e, *ty);
                lemma_leave_scope_fresh(check_run(g, st_push(st, Element::Var), e, *ty), Element::Var);
            },
            _ => {
                lemma_infer_keeps_fresh(g, st, e);
                if let Run::Done(Ok(t), s1) = infer_run(g, st, e) {
                    if let (Some(x), Some(y)) = (apply_fuel(s1.elems, t, g), apply_fuel(s1.elems, a, g)) {
                        lemma_subtype_keeps_fresh(g, s1, x, y);
                    }
                }
            },
        }
    }
}

} // verus!

verus! {

/// A solution found in the stack comes from a `Solved` element there.
pub proof fn lemma_solution_is_declared(elems: Seq<Element>, n: usize)
    ensures
        solution_of(elems, n) matches Some(t) ==> elems.contains(Element::Solved(n, t)),
    decreases elems.len(),
{
    if elems.len() > 0 {
        let rest = elems.subrange(1, elems.len() as int);
        lemma_solution_is_declared(rest, n);
        if let Some(t) = solution_of(elems, n) {
            if elems[0] != Element::Solved(n, t) {
                let k = choose|k: int| 0 <= k < rest.len() && rest[k] == Element::Solved(n, t);
                assert(elems[k + 1] == Element::Solved(n, t));
            }
        }
    }
}

/// The number the counter hands out next is declared nowhere in a context
/// whose declarations are all below the counter: it is neither an unsolved
/// nor a solved existential variable, nor a marker.
pub proof fn lemma_next_fresh_is_undeclared(elems: Seq<Element>, ev: usize)
    requires
        fresh_from(elems, ev as nat),
    ensures
        !elems.contains(Element::Exist(ev)),
        !elems.contains(Element::Marker(ev)),
        solution_of(elems, ev) is None,
        last_exist(elems, ev) is None,
{
    lemma_solution_is_declared(elems, ev);
    crate::context::lemma_last_exist_bounds(elems, ev);
    if elems.contains(Element::Exist(ev)) {
        let k = choose|k: int| 0 <= k < elems.len() && elems[k] == Element::Exist(ev);
        assert(declared_below(elems[k], ev as nat));
    }
    if elems.contains(Element::Marker(ev)) {
        let k = choose|k: int| 0 <= k < elems.len() && elems[k] == Element::Marker(ev);
        assert(declared_below(elems[k], ev as nat));
    }
    if let Some(t) = solution_of(elems, ev) {
        let k = choose|k: int| 0 <= k < elems.len() && elems[k] == Element::Solved(ev, t);
        assert(declared_below(elems[k], ev as nat));
    }
}

/// The empty context declares nothing, so every number is fresh in it.
pub proof fn lemma_empty_is_fresh(ev: nat)
    ensures
        fresh_from(Seq::<Element>::empty(), ev),
{
}

} // verus!

verus! {

/// A solved element's solution is a monotype; other elements pass.
pub open spec fn solved_to_monotype(e: Element) -> bool {
    match e {
        Element::Solved(_, t) => is_monotype(t),
        _ => true,
    }
}

/// Every existential variable in the stack is solved to some monotype.
pub open spec fn solutions_are_monotypes(elems: Seq<Element>) -> bool {
    forall|i: int| 0 <= i < elems.len() ==> solved_to_monotype(#[trigger] elems[i])
}

/// A finished run leaves a context whose solutions are monotypes.
pub open spec fn ends_monotype_solved<T>(r: Run<T>) -> bool {
    match r {
        Run::Done(_, s) => solutions_are_monotypes(s.elems),
        Run::Stuck => true,
    }
}

proof fn lemma_mono_push(elems: Seq<Element>, e: Element)
    requires
        solutions_are_monotypes(elems),
        solved_to_monotype(e),
    ensures
        solutions_are_monotypes(elems.push(e)),
{
    assert forall|i: int| 0 <= i < elems.push(e).len() implies solved_to_monotype(#[trigger] elems.push(e)[i]) by {
        if i < elems.len() {
            assert(elems.push(e)[i] == elems[i]);
        }
    }
}

proof fn lemma_mono_subrange(elems: Seq<Element>, i: int, j: int)
    requires
        solutions_are_monotypes(elems),
        0 <= i <= j <= elems.len(),
    ensures
        solutions_are_monotypes(elems.subrange(i, j)),
{
    assert forall|k: int| 0 <= k < elems.subrange(i, j).len() implies solved_to_monotype(
        #[trigger] elems.subrange(i, j)[k],
    ) by {
        assert(elems.subrange(i, j)[k] == elems[i + k]);
    }
}

proof fn lemma_mono_concat(x: Seq<Element>, y: Seq<Element>)
    requires
        solutions_are_monotypes(x),
        solutions_are_monotypes(y),
    ensures
        solutions_are_monotypes(x + y),
{
    assert forall|k: int| 0 <= k < (x + y).len() implies solved_to_monotype(#[trigger] (x + y)[k]) by {
        if k < x.len() {
            assert((x + y)[k] == x[k]);
        } else {
            assert((x + y)[k] == y[k - x.len()]);
        }
    }
}

proof fn lemma_mono_pop_until(elems: Seq<Element>, e: Element)
    requires
        solutions_are_monotypes(elems),
    ensures
        pop_until(elems, e) matches Some(p) ==> solutions_are_monotypes(p),
    decreases elems.len(),
{
    if elems.len() > 0 {
        lemma_mono_subrange(elems, 0, elems.len() - 1);
        assert(elems.drop_last() =~= elems.subrange(0, elems.len() - 1));
        lemma_mono_pop_until(elems.drop_last(), e);
    }
}

proof fn lemma_mono_leave_scope<T>(r: Run<T>, e: Element)
    requires
        ends_monotype_solved(r),
    ensures
        ends_monotype_solved(leave_scope(r, e)),
{
    if let Run::Done(_, s) = r {
        lemma_mono_pop_until(s.elems, e);
    }
}

proof fn lemma_mono_splice(elems: Seq<Element>, exist: usize, ins: Seq<Element>)
    requires
        solutions_are_monotypes(elems),
        solutions_are_monotypes(ins),
    ensures
        splice(elems, exist, ins) matches Some(r) ==> solutions_are_monotypes(r),
{
    crate::context::lemma_last_exist_bounds(elems, exist);
    if let Some(idx) = last_exist(elems, exist) {
        lemma_mono_subrange(elems, 0, idx);
        lemma_mono_subrange(elems, idx + 1, elems.len() as int);
        lemma_mono_concat(elems.subrange(0, idx), ins);
        lemma_mono_concat(elems.subrange(0, idx) + ins, elems.subrange(idx + 1, elems.len() as int));
    }
}

proof fn lemma_mono_solve(elems: Seq<Element>, alpha: usize, a: Type)
    requires
        solutions_are_monotypes(elems),
        is_monotype(a),
        last_exist(elems, alpha) is Some,
    ensures
        ({
            let idx = last_exist(elems, alpha).unwrap();
            solutions_are_monotypes(
                elems.subrange(0, idx).push(Element::Solved(alpha, a)) + elems.subrange(idx + 1, elems.len() as int),
            )
        }),
{
    crate::context::lemma_last_exist_bounds(elems, alpha);
    let idx = last_exist(elems, alpha).unwrap();
    lemma_mono_subrange(elems, 0, idx);
    lemma_mono_subrange(elems, idx + 1, elems.len() as int);
    lemma_mono_push(elems.subrange(0, idx), Element::Solved(alpha, a));
    lemma_mono_concat(
        elems.subrange(0, idx).push(Element::Solved(alpha, a)),
        elems.subrange(idx + 1, elems.len() as int),
    );
}

proof fn lemma_mono_articulation(elems: Seq<Element>, alpha: usize, a1: usize, a2: usize)
    requires
        solutions_are_monotypes(elems),
    ensures
        splice(elems, alpha, articulation(alpha, a1, a2)) matches Some(r) ==> solutions_are_monotypes(r),
{
    let ins = articulation(alpha, a1, a2);
    assert(is_monotype(Type::Exist(a1)) && is_monotype(Type::Exist(a2)));
    assert(is_monotype(Type::Arrow(Box::new(Type::Exist(a1)), Box::new(Type::Exist(a2)))));
    assert forall|k: int| 0 <= k < ins.len() implies solved_to_monotype(#[trigger] ins[k]) by {}
    lemma_mono_splice(elems, alpha, ins);
}

proof fn lemma_mono_reach(elems: Seq<Element>, beta: usize, alpha: usize)
    requires
        solutions_are_monotypes(elems),
    ensures
        splice(elems, beta, seq![Element::Solved(beta, Type::Exist(alpha))]) matches Some(r)
            ==> solutions_are_monotypes(r),
{
    let ins = seq![Element::Solved(beta, Type::Exist(alpha))];
    assert forall|k: int| 0 <= k < ins.len() implies solved_to_monotype(#[trigger] ins[k]) by {}
    lemma_mono_splice(elems, beta, ins);
}

/// Existential variables are only ever solved to monotypes: if every
/// solution in the context is a monotype, so is every solution in the
/// context a finished subtyping run leaves.
pub proof fn lemma_subtype_solves_to_monotypes(fuel: nat, st: CtxState, a: Type, b: Type)
    requires
        solutions_are_monotypes(st.elems),
    ensures
        ends_monotype_solved(subtype_run(fuel, st, a, b)),
    decreases fuel,
{
    if fuel > 0 {
        let g = (fuel - 1) as nat;
        match (a, b) {
            (Type::Unit, Type::Unit) => {},
            (Type::Var(x), Type::Var(y)) if x == y => {},
            (Type::Exist(x), Type::Exist(y)) if x == y => {},
            (Type::Arrow(a1, a2), Type::Arrow(b1, b2)) => {
                lemma_subtype_solves_to_monotypes(g, st, *b1, *a1);
                if let Run::Done(Ok(_), s1) = subtype_run(g, st, *b1, *a1) {
                    if let (Some(x), Some(y)) = (apply_fuel(s1.elems, *a2, g), apply_fuel(s1.elems, *b2, g)) {
                        lemma_subtype_solves_to_monotypes(g, s1, x, y);
                    }
                }
            },
            (Type::Univ(body), _) => {
                let alpha = st.ev as usize;
                lemma_mono_push(st.elems, Element::Marker(alpha));
                lemma_mono_push(st.elems.push(Element::Marker(alpha)), Element::Exist(alpha));
                let s1 = st_push(st_push(st_fresh(st, 1), Element::Marker(alpha)), Element::Exist(alpha));
                lemma_subtype_solves_to_monotypes(g, s1, open_at(*body, 0, alpha), b);
                lemma_mono_leave_scope(subtype_run(g, s1, open_at(*body, 0, alpha), b), Element::Marker(alpha));
            },
            (_, Type::Univ(body)) => {
                lemma_mono_push(st.elems, Element::Var);
                let s1 = st_push(st_fresh(st, 1), Element::Var);
                lemma_subtype_solves_to_monotypes(g, s1, a, *body);
                lemma_mono_leave_scope(subtype_run(g, s1, a, *body), Element::Var);
            },
            (Type::Exist(alpha), _) if !free_exists(b).contains(alpha) => {
                lemma_inst_l_solves_to_monotypes(g, st, alpha, b);
            },
            (_, Type::Exist(alpha)) if !free_exists(a).contains(alpha) => {
                lemma_inst_r_solves_to_monotypes(g, st, a, alpha);
            },
            _ => {},
        }
    }
}

/// A finished left instantiation solves only to monotypes.
pub proof fn lemma_inst_l_solves_to_monotypes(fuel: nat, st: CtxState, alpha: usize, a: Type)
    requires
        solutions_are_monotypes(st.elems),
    ensures
        ends_monotype_solved(inst_l_run(fuel, st, alpha, a)),
    decreases fuel,
{
    if fuel > 0 {
        let g = (fuel - 1) as nat;
        if let Some(idx) = last_exist(st.elems, alpha) {
            if is_monotype(a) {
                lemma_mono_solve(st.elems, alpha, a);
            }
            if !(is_monotype(a) && wf_type(st.elems.subrange(0, idx), a)) {
                match a {
                    Type::Arrow(t1, t2) => {
                        let a1 = st.ev as usize;
                        let a2 = (st.ev + 1) as usize;
                        let s2 = st_fresh(st, 2);
                        lemma_mono_articulation(s2.elems, alpha, a1, a2);
                        if let Some(elems) = splice(s2.elems, alpha, articulation(alpha, a1, a2)) {
                            lemma_inst_r_solves_to_monotypes(g, st_with(s2, elems), *t1, a1);
                            if let Run::Done(Ok(_), s4) = inst_r_run(g, st_with(s2, elems), *t1, a1) {
                                if let Some(t2a) = apply_fuel(s4.elems, *t2, g) {
                                    lemma_inst_l_solves_to_monotypes(g, s4, a2, t2a);
                                }
                            }
                        }
                    },
                    Type::Univ(body) => {
                        lemma_mono_push(st.elems, Element::Var);
                        let s1 = st_push(st, Element::Var);
                        lemma_inst_l_solves_to_monotypes(g, s1, alpha, *body);
                        lemma_mono_leave_scope(inst_l_run(g, s1, alpha, *body), Element::Var);
                    },
                    Type::Exist(beta) => {
                        lemma_mono_reach(st.elems, beta, alpha);
                    },
                    _ => {},
                }
            }
        }
    }
}

/// A finished right instantiation solves only to monotypes.
pub proof fn lemma_inst_r_solves_to_monotypes(fuel: nat, st: CtxState, a: Type, alpha: usize)
    requires
        solutions_are_monotypes(st.elems),
    ensures
        ends_monotype_solved(inst_r_run(fuel, st, a, alpha)),
    decreases fuel,
{
    if fuel > 0 {
        let g = (fuel - 1) as nat;
        if let Some(idx) = last_exist(st.elems, alpha) {
            if is_monotype(a) {
                lemma_mono_solve(st.elems, alpha, a);
            }
            if !(is_monotype(a) && wf_type(st.elems.subrange(0, idx), a)) {
                match a {
                    Type::Arrow(t1, t2) => {
                        let a1 = st.ev as usize;
                        let a2 = (st.ev + 1) as usize;
                        let s2 = st_fresh(st, 2);
                        lemma_mono_articulation(s2.elems, alpha, a1, a2);
                        if let Some(elems) = splice(s2.elems, alpha, articulation(alpha, a1, a2)) {
                            lemma_inst_l_solves_to_monotypes(g, st_with(s2, elems), a1, *t1);
                            if let Run::Done(Ok(_), s4) = inst_l_run(g, st_with(s2, elems), a1, *t1) {
                                if let Some(t2a) = apply_fuel(s4.elems, *t2, g) {
                                    lemma_inst_r_solves_to_monotypes(g, s4, t2a, a2);
                                }
                            }
                        }
                    },
                    Type::Univ(body) => {
                        let beta = st.ev as usize;
                        lemma_mono_push(st.elems, Element::Marker(beta));
                        lemma_mono_push(st.elems.push(Element::Marker(beta)), Element::Exist(beta));
                        let s1 = st_push(st_push(st_fresh(st, 1), Element::Marker(beta)), Element::Exist(beta));
                        lemma_inst_r_solves_to_monotypes(g, s1, open_at(*body, 0, beta), alpha);
                        lemma_mono_leave_scope(inst_r_run(g, s1, open_at(*body, 0, beta), alpha), Element::Marker(beta));
                    },
                    Type::Exist(beta) => {
                        lemma_mono_reach(st.elems, beta, alpha);
                    },
                    _ => {},
                }
            }
        }
    }
}

/// A finished synthesis solves only to monotypes.
pub proof fn lemma_infer_solves_to_monotypes(fuel: nat, st: CtxState, e: Expr)
    requires
        solutions_are_monotypes(st.elems),
    ensures
        ends_monotype_solved(infer_run(fuel, st, e)),
    decreases fuel,
{
    if fuel > 0 {
        let g = (fuel - 1) as nat;
        match e {
            Expr::Ann(x, ty) => {
                lemma_check_solves_to_monotypes(g, st, *x, *ty);
            },
            Expr::Abs(body) => {
                let alpha = st.ev as usize;
                let beta = (st.ev + 1) as usize;
                lemma_mono_push(st.elems, Element::Exist(alpha));
                lemma_mono_push(st.elems.push(Element::Exist(alpha)), Element::Exist(beta));
                lemma_mono_push(
                    st.elems.push(Element::Exist(alpha)).push(Element::Exist(beta)),
                    Element::Ann(Type::Exist(alpha)),
                );
                let s1 = st_push(
                    st_push(st_push(st_fresh(st, 2), Element::Exist(alpha)), Element::Exist(beta)),
                    Element::Ann(Type::Exist(alpha)),
                );
                lemma_check_solves_to_monotypes(g, s1, *body, Type::Exist(beta));
                lemma_mono_leave_scope(check_run(g, s1, *body, Type::Exist(beta)), Element::Ann(Type::Exist(alpha)));
            },
            Expr::App(e1, e2) => {
                lemma_infer_solves_to_monotypes(g, st, *e1);
                if let Run::Done(Ok(a), s1) = infer_run(g, st, *e1) {
                    if let Some(a1) = apply_fuel(s1.elems, a, g) {
                        lemma_infer_app_solves_to_monotypes(g, s1, a1, *e2);
                    }
                }
            },
            _ => {},
        }
    }
}

/// A finished application synthesis solves only to monotypes.
pub proof fn lemma_infer_app_solves_to_monotypes(fuel: nat, st: CtxState, ty: Type, e2: Expr)
    requires
        solutions_are_monotypes(st.elems),
    ensures
        ends_monotype_solved(infer_app_run(fuel, st, ty, e2)),
    decreases fuel,
{
    if fuel > 0 {
        let g = (fuel - 1) as nat;
        match ty {
            Type::Exist(alpha) => {
                let a1 = st.ev as usize;
                let a2 = (st.ev + 1) as usize;
                let s2 = st_fresh(st, 2);
                lemma_mono_articulation(s2.elems, alpha, a1, a2);
                if let Some(elems) = splice(s2.elems, alpha, articulation(alpha, a1, a2)) {
                    lemma_check_solves_to_monotypes(g, st_with(s2, elems), e2, Type::Exist(a1));
                }
            },
            Type::Arrow(a, _) => {
                lemma_check_solves_to_monotypes(g, st, e2, *a);
            },
            Type::Univ(a) => {
                let alpha = st.ev as usize;
                lemma_mono_push(st.elems, Element::Exist(alpha));
                lemma_infer_app_solves_to_monotypes(
                    g,
                    st_push(st_fresh(st, 1), Element::Exist(alpha)),
                    open_at(*a, 0, alpha),
                    e2,
                );
            },
            _ => {},
        }
    }
}

/// A finished check solves only to monotypes.
pub proof fn lemma_check_solves_to_monotypes(fuel: nat, st: CtxState, e: Expr, a: Type)
    requires
        solutions_are_monotypes(st.elems),
    ensures
        ends_monotype_solved(check_run(fuel, st, e, a)),
    decreases fuel,
{
    if fuel > 0 {
        let g = (fuel - 1) as nat;
        match (e, a) {
            (Expr::Unit, Type::Unit) => {},
            (Expr::Abs(body), Type::Arrow(a1, a2)) => {
                lemma_mono_push(st.elems, Element::Ann(*a1));
                lemma_check_solves_to_monotypes(g, st_push(st, Element::Ann(*a1)), *body, *a2);
                lemma_mono_leave_scope(check_run(g, st_push(st, Element::Ann(*a1)), *body, *a2), Element::Ann(*a1));
            },
            (_, Type::Univ(ty)) => {
                lemma_mono_push(st.elems, Element::Var);
                lemma_check_solves_to_monotypes(g, st_push(st, Element::Var), e, *ty);
                lemma_mono_leave_scope(check_run(g, st_push(st, Element::Var), e, *ty), Element::Var);
            },
            _ => {
                lemma_infer_solves_to_monotypes(g, st, e);
                if let Run::Done(Ok(t), s1) = infer_run(g, st, e) {
                    if let (Some(x), Some(y)) = (apply_fuel(s1.elems, t, g), apply_fuel(s1.elems, a, g)) {
                        lemma_subtype_solves_to_monotypes(g, s1, x, y);
                    }
                }
            },
        }
    }
}

} // verus!

verus! {

/// Following solutions ends from every existential variable: no chain of
/// solutions runs in a cycle.
pub open spec fn solutions_acyclic(elems: Seq<Element>) -> bool {
    forall|n: usize| #[trigger] crate::context::apply_terminates(elems, Type::Exist(n))
}

/// With acyclic solutions, applying the context to any type terminates.
pub proof fn lemma_apply_terminates_everywhere(elems: Seq<Element>, t: Type)
    requires
        solutions_acyclic(elems),
    ensures
        crate::context::apply_terminates(elems, t),
    decreases t,
{
    match t {
        Type::Unit | Type::Var(_) => {
            assert(apply_fuel(elems, t, 0) is Some);
        },
        Type::Exist(n) => {
            assert(crate::context::apply_terminates(elems, Type::Exist(n)));
        },
        Type::Arrow(a, b) => {
            lemma_apply_terminates_everywhere(elems, *a);
            lemma_apply_terminates_everywhere(elems, *b);
            let fa = choose|f: nat| #[trigger] apply_fuel(elems, *a, f) is Some;
            let fb = choose|f: nat| #[trigger] apply_fuel(elems, *b, f) is Some;
            let f = if fa >= fb { fa } else { fb };
            crate::context::lemma_apply_fuel_mono(elems, *a, fa, f);
            crate::context::lemma_apply_fuel_mono(elems, *b, fb, f);
            assert(apply_fuel(elems, t, f) is Some);
        },
        Type::Univ(a) => {
            lemma_apply_terminates_everywhere(elems, *a);
            let fa = choose|f: nat| #[trigger] apply_fuel(elems, *a, f) is Some;
            assert(apply_fuel(elems, t, fa) is Some);
        },
    }
}

/// When every solution is a monotype, applying the context gives a
/// monotype exactly when the type was one.
pub proof fn lemma_apply_preserves_monotype(elems: Seq<Element>, t: Type, fuel: nat)
    requires
        apply_fuel(elems, t, fuel) is Some,
        solutions_are_monotypes(elems),
    ensures
        is_monotype(apply_fuel(elems, t, fuel).unwrap()) == is_monotype(t),
    decreases fuel, t,
{
    match t {
        Type::Arrow(a, b) => {
            lemma_apply_preserves_monotype(elems, *a, fuel);
            lemma_apply_preserves_monotype(elems, *b, fuel);
        },
        Type::Univ(a) => {
            lemma_apply_preserves_monotype(elems, *a, fuel);
        },
        Type::Exist(n) => {
            if let Some(s) = solution_of(elems, n) {
                lemma_solution_is_declared(elems, n);
                let k = choose|k: int| 0 <= k < elems.len() && elems[k] == Element::Solved(n, s);
                assert(solved_to_monotype(elems[k]));
                lemma_apply_preserves_monotype(elems, s, (fuel - 1) as nat);
            }
        },
        _ => {},
    }
}

/// Subtyping is reflexive on monotypes: when every solution in the context
/// is a monotype and no chain of solutions is cyclic, `a <: a` finishes,
/// succeeds and leaves the context as it was.
pub proof fn lemma_subtype_reflexive(st: CtxState, a: Type)
    requires
        is_monotype(a),
        solutions_are_monotypes(st.elems),
        solutions_acyclic(st.elems),
    ensures
        exists|fuel: nat| #[trigger] subtype_run(fuel, st, a, a) == Run::Done(Ok::<(), crate::types::TypeError>(()), st),
    decreases a,
{
    match a {
        Type::Arrow(a1, a2) => {
            lemma_subtype_reflexive(st, *a1);
            let f1 = choose|f: nat| #[trigger] subtype_run(f, st, *a1, *a1) == Run::Done(Ok::<(), crate::types::TypeError>(()), st);
            lemma_apply_terminates_everywhere(st.elems, *a2);
            let f2 = choose|f: nat| #[trigger] apply_fuel(st.elems, *a2, f) is Some;
            let x = apply_fuel(st.elems, *a2, f2).unwrap();
            lemma_apply_preserves_monotype(st.elems, *a2, f2);
            lemma_apply_fully_applied(st.elems, *a2, f2);
            let m1 = if f1 >= f2 { f1 } else { f2 };
            let g = if m1 >= height(x) { m1 } else { height(x) };
            lemma_subtype_mono(f1, g, st, *a1, *a1);
            crate::context::lemma_apply_fuel_mono(st.elems, *a2, f2, g);
            lemma_subtype_reflexive_applied(g, st, x);
            assert(subtype_run(g + 1, st, a, a) == Run::Done(Ok::<(), crate::types::TypeError>(()), st));
        },
        _ => {
            assert(subtype_run(1, st, a, a) == Run::Done(Ok::<(), crate::types::TypeError>(()), st));
        },
    }
}

} // verus!

verus! {

/// The elements that open scopes: universal variables, term annotations
/// and markers.
pub open spec fn is_scope(e: Element) -> bool {
    e is Var || e is Ann || e is Marker
}

/// The scope elements of the stack, in order.
pub open spec fn scopes(elems: Seq<Element>) -> Seq<Element>
    decreases elems.len(),
{
    if elems.len() == 0 {
        Seq::empty()
    } else if is_scope(elems.last()) {
        scopes(elems.drop_last()).push(elems.last())
    } else {
        scopes(elems.drop_last())
    }
}

/// A finished run leaves a stack with exactly these scope elements.
pub open spec fn ends_with_scopes<T>(r: Run<T>, sc: Seq<Element>) -> bool {
    match r {
        Run::Done(_, s) => scopes(s.elems) == sc,
        Run::Stuck => true,
    }
}

/// The scope elements of a concatenation are those of each part, in order.
pub proof fn lemma_scopes_concat(x: Seq<Element>, y: Seq<Element>)
    ensures
        scopes(x + y) == scopes(x) + scopes(y),
    decreases y.len(),
{
    if y.len() == 0 {
        assert(x + y =~= x);
        assert(scopes(x) + scopes(y) =~= scopes(x));
    } else {
        assert((x + y).drop_last() =~= x + y.drop_last());
        assert((x + y).last() == y.last());
        lemma_scopes_concat(x, y.drop_last());
        if is_scope(y.last()) {
            assert(scopes(x) + scopes(y.drop_last()).push(y.last()) =~= (scopes(x) + scopes(y.drop_last())).push(y.last()));
        }
    }
}

/// A single element is its own scope list exactly when it opens a scope.
pub proof fn lemma_scopes_single(e: Element)
    ensures
        scopes(seq![e]) == (if is_scope(e) { seq![e] } else { Seq::<Element>::empty() }),
{
    assert(seq![e].drop_last() =~= Seq::<Element>::empty());
    assert(seq![e].last() == e);
    assert(scopes(Seq::<Element>::empty()) == Seq::<Element>::empty());
    assert(Seq::<Element>::empty().push(e) =~= seq![e]);
}

/// Replacing the top-most `Exist(exist)` by elements none of which opens a
/// scope keeps the scope elements.
proof fn lemma_scopes_splice(elems: Seq<Element>, exist: usize, ins: Seq<Element>)
    requires
        scopes(ins) == Seq::<Element>::empty(),
    ensures
        splice(elems, exist, ins) matches Some(r) ==> scopes(r) == scopes(elems),
{
    crate::context::lemma_last_exist_bounds(elems, exist);
    if let Some(idx) = last_exist(elems, exist) {
        let l = elems.subrange(0, idx);
        let r = elems.subrange(idx + 1, elems.len() as int);
        assert(elems =~= l + seq![Element::Exist(exist)] + r);
        lemma_scopes_concat(l, seq![Element::Exist(exist)]);
        lemma_scopes_concat(l + seq![Element::Exist(exist)], r);
        lemma_scopes_single(Element::Exist(exist));
        lemma_scopes_concat(l, ins);
        lemma_scopes_concat(l + ins, r);
        assert(scopes(l) + Seq::<Element>::empty() =~= scopes(l));
    }
}

/// Solving the top-most `Exist(alpha)` in place keeps the scope elements.
proof fn lemma_scopes_solve(elems: Seq<Element>, alpha: usize, a: Type)
    requires
        last_exist(elems, alpha) is Some,
    ensures
        ({
            let idx = last_exist(elems, alpha).unwrap();
            scopes(elems.subrange(0, idx).push(Element::Solved(alpha, a)) + elems.subrange(idx + 1, elems.len() as int))
                == scopes(elems)
        }),
{
    let idx = last_exist(elems, alpha).unwrap();
    let l = elems.subrange(0, idx);
    let r = elems.subrange(idx + 1, elems.len() as int);
    lemma_split_then_restore(elems, alpha);
    lemma_scopes_concat(l.push(Element::Solved(alpha, a)), r);
    lemma_scopes_concat(l.push(Element::Exist(alpha)), r);
    assert(l.push(Element::Solved(alpha, a)).drop_last() =~= l);
    assert(l.push(Element::Exist(alpha)).drop_last() =~= l);
}

/// When the last scope element of the stack is `e`, leaving the scope
/// removes exactly that scope element.
proof fn lemma_scopes_pop(elems: Seq<Element>, e: Element)
    requires
        is_scope(e),
        scopes(elems).len() > 0,
        scopes(elems).last() == e,
    ensures
        pop_until(elems, e) is Some,
        scopes(pop_until(elems, e).unwrap()) == scopes(elems).drop_last(),
    decreases elems.len(),
{
    if elems.last() == e {
        assert(scopes(elems) == scopes(elems.drop_last()).push(e));
        assert(scopes(elems).drop_last() =~= scopes(elems.drop_last()));
    } else {
        lemma_scopes_pop(elems.drop_last(), e);
    }
}

proof fn lemma_scopes_leave<T>(r: Run<T>, sc: Seq<Element>, e: Element)
    requires
        is_scope(e),
        ends_with_scopes(r, sc.push(e)),
    ensures
        ends_with_scopes(leave_scope(r, e), sc),
{
    if let Run::Done(_, s) = r {
        assert(sc.push(e).last() == e);
        lemma_scopes_pop(s.elems, e);
        assert(sc.push(e).drop_last() =~= sc);
    }
}

/// The elements that articulate an existential variable into an arrow open no scope.
pub proof fn lemma_scopes_articulation(alpha: usize, a1: usize, a2: usize)
    ensures
        scopes(articulation(alpha, a1, a2)) == Seq::<Element>::empty(),
{
    let ins = articulation(alpha, a1, a2);
    let i1 = ins.drop_last();
    let i2 = i1.drop_last();
    let i3 = i2.drop_last();
    assert(i3 =~= Seq::<Element>::empty());
    assert(scopes(i3) == Seq::<Element>::empty());
    assert(i2.last() == Element::Exist(a2));
    assert(scopes(i2) == scopes(i3));
    assert(i1.last() == Element::Exist(a1));
    assert(scopes(i1) == scopes(i2));
    assert(!is_scope(ins.last()));
    assert(scopes(ins) == scopes(i1));
}

/// Every scope a subtyping run opens it closes again: a finished run leaves
/// the universal variables, annotations and markers of the stack exactly as
/// they were, in order.
pub proof fn lemma_subtype_keeps_scopes(fuel: nat, st: CtxState, a: Type, b: Type)
    ensures
        ends_with_scopes(subtype_run(fuel, st, a, b), scopes(st.elems)),
    decreases fuel,
{
    if fuel > 0 {
        let g = (fuel - 1) as nat;
        match (a, b) {
            (Type::Unit, Type::Unit) => {},
            (Type::Var(x), Type::Var(y)) if x == y => {},
            (Type::Exist(x), Type::Exist(y)) if x == y => {},
            (Type::Arrow(a1, a2), Type::Arrow(b1, b2)) => {
                lemma_subtype_keeps_scopes(g, st, *b1, *a1);
                if let Run::Done(Ok(_), s1) = subtype_run(g, st, *b1, *a1) {
                    if let (Some(x), Some(y)) = (apply_fuel(s1.elems, *a2, g), apply_fuel(s1.elems, *b2, g)) {
                        lemma_subtype_keeps_scopes(g, s1, x, y);
                    }
                }
            },
            (Type::Univ(body), _) => {
                let alpha = st.ev as usize;
                let s1 = st_push(st_push(st_fresh(st, 1), Element::Marker(alpha)), Element::Exist(alpha));
                assert(s1.elems.drop_last() =~= st.elems.push(Element::Marker(alpha)));
                assert(st.elems.push(Element::Marker(alpha)).drop_last() =~= st.elems);
                assert(scopes(st.elems.push(Element::Marker(alpha))) == scopes(st.elems).push(Element::Marker(alpha)));
                assert(scopes(s1.elems) == scopes(st.elems).push(Element::Marker(alpha)));
                lemma_subtype_keeps_scopes(g, s1, open_at(*body, 0, alpha), b);
                lemma_scopes_leave(
                    subtype_run(g, s1, open_at(*body, 0, alpha), b),
                    scopes(st.elems),
                    Element::Marker(alpha),
                );
            },
            (_, Type::Univ(body)) => {
                let s1 = st_push(st_fresh(st, 1), Element::Var);
                assert(s1.elems.drop_last() =~= st.elems);
                lemma_subtype_keeps_scopes(g, s1, a, *body);
                lemma_scopes_leave(subtype_run(g, s1, a, *body), scopes(st.elems), Element::Var);
            },
            (Type::Exist(alpha), _) if !free_exists(b).contains(alpha) => {
                lemma_inst_l_keeps_scopes(g, st, alpha, b);
            },
            (_, Type::Exist(alpha)) if !free_exists(a).contains(alpha) => {
                lemma_inst_r_keeps_scopes(g, st, a, alpha);
            },
            _ => {},
        }
    }
}

/// A finished left instantiation keeps the scope elements.
pub proof fn lemma_inst_l_keeps_scopes(fuel: nat, st: CtxState, alpha: usize, a: Type)
    ensures
        ends_with_scopes(inst_l_run(fuel, st, alpha, a), scopes(st.elems)),
    decreases fuel,
{
    if fuel > 0 {
        let g = (fuel - 1) as nat;
        if let Some(idx) = last_exist(st.elems, alpha) {
            lemma_scopes_solve(st.elems, alpha, a);
            if !(is_monotype(a) && wf_type(st.elems.subrange(0, idx), a)) {
                match a {
                    Type::Arrow(t1, t2) => {
                        let a1 = st.ev as usize;
                        let a2 = (st.ev + 1) as usize;
                        let s2 = st_fresh(st, 2);
                        lemma_scopes_articulation(alpha, a1, a2);
                        lemma_scopes_splice(s2.elems, alpha, articulation(alpha, a1, a2));
                        if let Some(elems) = splice(s2.elems, alpha, articulation(alpha, a1, a2)) {
                            lemma_inst_r_keeps_scopes(g, st_with(s2, elems), *t1, a1);
                            if let Run::Done(Ok(_), s4) = inst_r_run(g, st_with(s2, elems), *t1, a1) {
                                if let Some(t2a) = apply_fuel(s4.elems, *t2, g) {
                                    lemma_inst_l_keeps_scopes(g, s4, a2, t2a);
                                }
                            }
                        }
                    },
                    Type::Univ(body) => {
                        let s1 = st_push(st, Element::Var);
                        assert(s1.elems.drop_last() =~= st.elems);
                        lemma_inst_l_keeps_scopes(g, s1, alpha, *body);
                        lemma_scopes_leave(inst_l_run(g, s1, alpha, *body), scopes(st.elems), Element::Var);
                    },
                    Type::Exist(beta) => {
                        lemma_scopes_single(Element::Solved(beta, Type::Exist(alpha)));
                        lemma_scopes_splice(st.elems, beta, seq![Element::Solved(beta, Type::Exist(alpha))]);
                    },
                    _ => {},
                }
            }
        }
    }
}

/// A finished right instantiation keeps the scope elements.
pub proof fn lemma_inst_r_keeps_scopes(fuel: nat, st: CtxState, a: Type, alpha: usize)
    ensures
        ends_with_scopes(inst_r_run(fuel, st, a, alpha), scopes(st.elems)),
    decreases fuel,
{
    if fuel > 0 {
        let g = (fuel - 1) as nat;
        if let Some(idx) = last_exist(st.elems, alpha) {
            lemma_scopes_solve(st.elems, alpha, a);
            if !(is_monotype(a) && wf_type(st.elems.subrange(0, idx), a)) {
                match a {
                    Type::Arrow(t1, t2) => {
                        let a1 = st.ev as usize;
                        let a2 = (st.ev + 1) as usize;
                        let s2 = st_fresh(st, 2);
                        lemma_scopes_articulation(alpha, a1, a2);
                        lemma_scopes_splice(s2.elems, alpha, articulation(alpha, a1, a2));
                        if let Some(elems) = splice(s2.elems, alpha, articulation(alpha, a1, a2)) {
                            lemma_inst_l_keeps_scopes(g, st_with(s2, elems), a1, *t1);
                            if let Run::Done(Ok(_), s4) = inst_l_run(g, st_with(s2, elems), a1, *t1) {
                                if let Some(t2a) = apply_fuel(s4.elems, *t2, g) {
                                    lemma_inst_r_keeps_scopes(g, s4, t2a, a2);
                                }
                            }
                        }
                    },
                    Type::Univ(body) => {
                        let beta = st.ev as usize;
                        let s1 = st_push(st_push(st_fresh(st, 1), Element::Marker(beta)), Element::Exist(beta));
                        assert(s1.elems.drop_last() =~= st.elems.push(Element::Marker(beta)));
                        assert(st.elems.push(Element::Marker(beta)).drop_last() =~= st.elems);
                        assert(scopes(st.elems.push(Element::Marker(beta))) == scopes(st.elems).push(Element::Marker(beta)));
                        assert(scopes(s1.elems) == scopes(st.elems).push(Element::Marker(beta)));
                        lemma_inst_r_keeps_scopes(g, s1, open_at(*body, 0, beta), alpha);
                        lemma_scopes_leave(
                            inst_r_run(g, s1, open_at(*body, 0, beta), alpha),
                            scopes(st.elems),
                            Element::Marker(beta),
                        );
                    },
                    Type::Exist(beta) => {
                        lemma_scopes_single(Element::Solved(beta, Type::Exist(alpha)));
                        lemma_scopes_splice(st.elems, beta, seq![Element::Solved(beta, Type::Exist(alpha))]);
                    },
                    _ => {},
                }
            }
        }
    }
}

/// A finished synthesis keeps the scope elements: the annotation it pushes
/// for a lambda is popped again, and the existential variables it leaves
/// open no scope.
pub proof fn lemma_infer_keeps_scopes(fuel: nat, st: CtxState, e: Expr)
    ensures
        ends_with_scopes(infer_run(fuel, st, e), scopes(st.elems)),
    decreases fuel,
{
    if fuel > 0 {
        let g = (fuel - 1) as nat;
        match e {
            Expr::Ann(x, ty) => {
                lemma_check_keeps_scopes(g, st, *x, *ty);
            },
            Expr::Abs(body) => {
                let alpha = st.ev as usize;
                let beta = (st.ev + 1) as usize;
                let e1 = st.elems.push(Element::Exist(alpha));
                let e2 = e1.push(Element::Exist(beta));
                let s1 = st_push(
                    st_push(st_push(st_fresh(st, 2), Element::Exist(alpha)), Element::Exist(beta)),
                    Element::Ann(Type::Exist(alpha)),
                );
                assert(e1.drop_last() =~= st.elems);
                assert(e2.drop_last() =~= e1);
                assert(s1.elems.drop_last() =~= e2);
                assert(scopes(e1) == scopes(st.elems));
                assert(scopes(e2) == scopes(st.elems));
                assert(scopes(s1.elems) == scopes(st.elems).push(Element::Ann(Type::Exist(alpha))));
                lemma_check_keeps_scopes(g, s1, *body, Type::Exist(beta));
                lemma_scopes_leave(
                    check_run(g, s1, *body, Type::Exist(beta)),
                    scopes(st.elems),
                    Element::Ann(Type::Exist(alpha)),
                );
            },
            Expr::App(e1, e2) => {
                lemma_infer_keeps_scopes(g, st, *e1);
                if let Run::Done(Ok(a), s1) = infer_run(g, st, *e1) {
                    if let Some(a1) = apply_fuel(s1.elems, a, g) {
                        lemma_infer_app_keeps_scopes(g, s1, a1, *e2);
                    }
                }
            },
            _ => {},
        }
    }
}

/// A finished application synthesis keeps the scope elements.
pub proof fn lemma_infer_app_keeps_scopes(fuel: nat, st: CtxState, ty: Type, e2: Expr)
    ensures
        ends_with_scopes(infer_app_run(fuel, st, ty, e2), scopes(st.elems)),
    decreases fuel,
{
    if fuel > 0 {
        let g = (fuel - 1) as nat;
        match ty {
            Type::Exist(alpha) => {
                let a1 = st.ev as usize;
                let a2 = (st.ev + 1) as usize;
                let s2 = st_fresh(st, 2);
                lemma_scopes_articulation(alpha, a1, a2);
                lemma_scopes_splice(s2.elems, alpha, articulation(alpha, a1, a2));
                if let Some(elems) = splice(s2.elems, alpha, articulation(alpha, a1, a2)) {
                    lemma_check_keeps_scopes(g, st_with(s2, elems), e2, Type::Exist(a1));
                }
            },
            Type::Arrow(a, _) => {
                lemma_check_keeps_scopes(g, st, e2, *a);
            },
            Type::Univ(a) => {
                let alpha = st.ev as usize;
                let s1 = st_push(st_fresh(st, 1), Element::Exist(alpha));
                assert(s1.elems.drop_last() =~= st.elems);
                lemma_infer_app_keeps_scopes(g, s1, open_at(*a, 0, alpha), e2);
            },
            _ => {},
        }
    }
}

/// Every scope a check opens it closes again: a finished check leaves the
/// universal variables, annotations and markers of the stack exactly as
/// they were, in order.
pub proof fn lemma_check_keeps_scopes(fuel: nat, st: CtxState, e: Expr, a: Type)
    ensures
        ends_with_scopes(check_run(fuel, st, e, a), scopes(st.elems)),
    decreases fuel,
{
    if fuel > 0 {
        let g = (fuel - 1) as nat;
        match (e, a) {
            (Expr::Unit, Type::Unit) => {},
            (Expr::Abs(body), Type::Arrow(a1, a2)) => {
                let s1 = st_push(st, Element::Ann(*a1));
                assert(s1.elems.drop_last() =~= st.elems);
                lemma_check_keeps_scopes(g, s1, *body, *a2);
                lemma_scopes_leave(check_run(g, s1, *body, *a2), scopes(st.elems), Element::Ann(*a1));
            },
            (_, Type::Univ(ty)) => {
                let s1 = st_push(st, Element::Var);
                assert(s1.elems.drop_last() =~= st.elems);
                lemma_check_keeps_scopes(g, s1, e, *ty);
                lemma_scopes_leave(check_run(g, s1, e, *ty), scopes(st.elems), Element::Var);
            },
            _ => {
                lemma_infer_keeps_scopes(g, st, e);
                if let Run::Done(Ok(t), s1) = infer_run(g, st, e) {
                    if let (Some(x), Some(y)) = (apply_fuel(s1.elems, t, g), apply_fuel(s1.elems, a, g)) {
                        lemma_subtype_keeps_scopes(g, s1, x, y);
                    }
                }
            },
        }
    }
}

} // verus!
