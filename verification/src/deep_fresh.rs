//! Fresh numbers stay fresh everywhere: every existential variable named in
//! the context, as a declaration or inside an element's type, and every
//! existential variable of a synthesized type, is numbered below the
//! counter of fresh variables.
use vstd::prelude::*;
use crate::types::{Element, Expr, Type, free_exists, is_monotype, open_at};
use crate::context::{CtxState, apply_fuel, find_ann, last_exist, pop_until, solution_of, splice, wf_type};
use crate::semantics::{
    Run, articulation, check_run, infer_app_run, infer_run, inst_l_run, inst_r_run, leave_scope, st_fresh, st_push,
    st_with, subtype_run,
};
use crate::laws::{
    ends_at_or_after, lemma_check_fresh_monotone, lemma_infer_fresh_monotone, lemma_inst_l_fresh_monotone,
    lemma_inst_r_fresh_monotone, lemma_solution_is_declared, lemma_open_exists, lemma_subtype_fresh_monotone,
};

verus! {

/// Every existential variable of `t` is numbered below `ev`.
pub open spec fn type_below(t: Type, ev: nat) -> bool {
    forall|n: usize| #[trigger] free_exists(t).contains(n) ==> n < ev
}

/// Every number the element names, as a declaration or inside its type, is
/// below `ev`.
pub open spec fn names_below(e: Element, ev: nat) -> bool {
    match e {
        Element::Exist(n) => n < ev,
        Element::Marker(n) => n < ev,
        Element::Solved(n, t) => n < ev && type_below(t, ev),
        Element::Ann(t) => type_below(t, ev),
        Element::Var => true,
    }
}

/// Every number the stack names is below `ev`.
pub open spec fn all_names_below(elems: Seq<Element>, ev: nat) -> bool {
    forall|i: int| 0 <= i < elems.len() ==> names_below(#[trigger] elems[i], ev)
}

/// A finished run leaves a context that names only numbers below its
/// counter.
pub open spec fn ends_named_below<T>(r: Run<T>) -> bool {
    match r {
        Run::Done(_, s) => all_names_below(s.elems, s.ev),
        Run::Stuck => true,
    }
}

/// A finished synthesis leaves a context that names only numbers below its
/// counter, and synthesizes a type that does too.
pub open spec fn ends_typed_below(r: Run<Type>) -> bool {
    match r {
        Run::Done(res, s) => all_names_below(s.elems, s.ev) && (res matches Ok(t) ==> type_below(t, s.ev)),
        Run::Stuck => true,
    }
}

proof fn lemma_type_below_parts(t: Type, ev: nat)
    requires
        type_below(t, ev),
    ensures
        t matches Type::Arrow(a, b) ==> type_below(*a, ev) && type_below(*b, ev),
        t matches Type::Univ(a) ==> type_below(*a, ev),
{
    if let Type::Arrow(a, b) = t {
        assert forall|n: usize| #[trigger] free_exists(*a).contains(n) implies n < ev by {
            let k = choose|k: int| 0 <= k < free_exists(*a).len() && free_exists(*a)[k] == n;
            assert((free_exists(*a) + free_exists(*b))[k] == n);
            assert(free_exists(t).contains(n));
        }
        assert forall|n: usize| #[trigger] free_exists(*b).contains(n) implies n < ev by {
            let k = choose|k: int| 0 <= k < free_exists(*b).len() && free_exists(*b)[k] == n;
            assert((free_exists(*a) + free_exists(*b))[free_exists(*a).len() + k] == n);
            assert(free_exists(t).contains(n));
        }
    }
    if let Type::Univ(a) = t {
        assert(free_exists(t) == free_exists(*a));
    }
}

proof fn lemma_arrow_below(a: Type, b: Type, ev: nat)
    requires
        type_below(a, ev),
        type_below(b, ev),
    ensures
        type_below(Type::Arrow(Box::new(a), Box::new(b)), ev),
{
    let t = Type::Arrow(Box::new(a), Box::new(b));
    assert forall|n: usize| #[trigger] free_exists(t).contains(n) implies n < ev by {
        let k = choose|k: int| 0 <= k < free_exists(t).len() && free_exists(t)[k] == n;
        assert(free_exists(t) == free_exists(a) + free_exists(b));
        if k < free_exists(a).len() {
            assert(free_exists(a)[k] == n);
            assert(free_exists(a).contains(n));
        } else {
            assert(free_exists(b)[k - free_exists(a).len()] == n);
            assert(free_exists(b).contains(n));
        }
    }
}

proof fn lemma_exist_below(n: usize, ev: nat)
    requires
        n < ev,
    ensures
        type_below(Type::Exist(n), ev),
{
    assert forall|m: usize| #[trigger] free_exists(Type::Exist(n)).contains(m) implies m < ev by {
        assert(free_exists(Type::Exist(n)) =~= seq![n]);
        assert(free_exists(Type::Exist(n))[0] == n);
    }
}

proof fn lemma_names_raise(elems: Seq<Element>, ev1: nat, ev2: nat)
    requires
        all_names_below(elems, ev1),
        ev1 <= ev2,
    ensures
        all_names_below(elems, ev2),
{
    assert forall|i: int| 0 <= i < elems.len() implies names_below(#[trigger] elems[i], ev2) by {
        assert(names_below(elems[i], ev1));
    }
}

proof fn lemma_names_push(elems: Seq<Element>, e: Element, ev: nat)
    requires
        all_names_below(elems, ev),
        names_below(e, ev),
    ensures
        all_names_below(elems.push(e), ev),
{
    assert forall|i: int| 0 <= i < elems.push(e).len() implies names_below(#[trigger] elems.push(e)[i], ev) by {
        if i < elems.len() {
            assert(elems.push(e)[i] == elems[i]);
        }
    }
}

proof fn lemma_names_subrange(elems: Seq<Element>, i: int, j: int, ev: nat)
    requires
        all_names_below(elems, ev),
        0 <= i <= j <= elems.len(),
    ensures
        all_names_below(elems.subrange(i, j), ev),
{
    assert forall|k: int| 0 <= k < elems.subrange(i, j).len() implies names_below(
        #[trigger] elems.subrange(i, j)[k],
        ev,
    ) by {
        assert(elems.subrange(i, j)[k] == elems[i + k]);
    }
}

proof fn lemma_names_concat(x: Seq<Element>, y: Seq<Element>, ev: nat)
    requires
        all_names_below(x, ev),
        all_names_below(y, ev),
    ensures
        all_names_below(x + y, ev),
{
    assert forall|k: int| 0 <= k < (x + y).len() implies names_below(#[trigger] (x + y)[k], ev) by {
        if k < x.len() {
            assert((x + y)[k] == x[k]);
        } else {
            assert((x + y)[k] == y[k - x.len()]);
        }
    }
}

proof fn lemma_names_pop_until(elems: Seq<Element>, e: Element, ev: nat)
    requires
        all_names_below(elems, ev),
    ensures
        pop_until(elems, e) matches Some(p) ==> all_names_below(p, ev),
    decreases elems.len(),
{
    if elems.len() > 0 {
        lemma_names_subrange(elems, 0, elems.len() - 1, ev);
        assert(elems.drop_last() =~= elems.subrange(0, elems.len() - 1));
        lemma_names_pop_until(elems.drop_last(), e, ev);
    }
}

proof fn lemma_names_leave<T>(r: Run<T>, e: Element)
    requires
        ends_named_below(r),
    ensures
        ends_named_below(leave_scope(r, e)),
{
    if let Run::Done(_, s) = r {
        lemma_names_pop_until(s.elems, e, s.ev);
    }
}

proof fn lemma_declared_below(elems: Seq<Element>, alpha: usize, ev: nat)
    requires
        all_names_below(elems, ev),
        last_exist(elems, alpha) is Some,
    ensures
        alpha < ev,
{
    crate::context::lemma_last_exist_bounds(elems, alpha);
    let idx = last_exist(elems, alpha).unwrap();
    assert(names_below(elems[idx], ev));
}

proof fn lemma_names_splice(elems: Seq<Element>, exist: usize, ins: Seq<Element>, ev: nat)
    requires
        all_names_below(elems, ev),
        all_names_below(ins, ev),
    ensures
        splice(elems, exist, ins) matches Some(r) ==> all_names_below(r, ev),
{
    crate::context::lemma_last_exist_bounds(elems, exist);
    if let Some(idx) = last_exist(elems, exist) {
        lemma_names_subrange(elems, 0, idx, ev);
        lemma_names_subrange(elems, idx + 1, elems.len() as int, ev);
        lemma_names_concat(elems.subrange(0, idx), ins, ev);
        lemma_names_concat(elems.subrange(0, idx) + ins, elems.subrange(idx + 1, elems.len() as int), ev);
    }
}

proof fn lemma_names_solve(elems: Seq<Element>, alpha: usize, a: Type, ev: nat)
    requires
        all_names_below(elems, ev),
        type_below(a, ev),
        last_exist(elems, alpha) is Some,
    ensures
        ({
            let idx = last_exist(elems, alpha).unwrap();
            all_names_below(
                elems.subrange(0, idx).push(Element::Solved(alpha, a)) + elems.subrange(idx + 1, elems.len() as int),
                ev,
            )
        }),
{
    crate::context::lemma_last_exist_bounds(elems, alpha);
    lemma_declared_below(elems, alpha, ev);
    let idx = last_exist(elems, alpha).unwrap();
    lemma_names_subrange(elems, 0, idx, ev);
    lemma_names_subrange(elems, idx + 1, elems.len() as int, ev);
    lemma_names_push(elems.subrange(0, idx), Element::Solved(alpha, a), ev);
    lemma_names_concat(
        elems.subrange(0, idx).push(Element::Solved(alpha, a)),
        elems.subrange(idx + 1, elems.len() as int),
        ev,
    );
}

pub(crate) proof fn lemma_names_articulation(st: CtxState, alpha: usize)
    requires
        all_names_below(st.elems, st.ev),
        st.ev + 2 <= usize::MAX,
        alpha < st.ev,
    ensures
        ({
            let s2 = st_fresh(st, 2);
            splice(s2.elems, alpha, articulation(alpha, st.ev as usize, (st.ev + 1) as usize)) matches Some(r)
                ==> all_names_below(r, s2.ev)
        }),
{
    let s2 = st_fresh(st, 2);
    let a1 = st.ev as usize;
    let a2 = (st.ev + 1) as usize;
    let ins = articulation(alpha, a1, a2);
    lemma_names_raise(st.elems, st.ev, s2.ev);
    lemma_exist_below(a1, s2.ev);
    lemma_exist_below(a2, s2.ev);
    lemma_arrow_below(Type::Exist(a1), Type::Exist(a2), s2.ev);
    assert forall|k: int| 0 <= k < ins.len() implies names_below(#[trigger] ins[k], s2.ev) by {}
    lemma_names_splice(s2.elems, alpha, ins, s2.ev);
}

proof fn lemma_names_reach(elems: Seq<Element>, beta: usize, alpha: usize, ev: nat)
    requires
        all_names_below(elems, ev),
        alpha < ev,
    ensures
        splice(elems, beta, seq![Element::Solved(beta, Type::Exist(alpha))]) matches Some(r)
            ==> all_names_below(r, ev),
{
    let ins = seq![Element::Solved(beta, Type::Exist(alpha))];
    if splice(elems, beta, ins) is Some {
        lemma_declared_below(elems, beta, ev);
        lemma_exist_below(alpha, ev);
        assert forall|k: int| 0 <= k < ins.len() implies names_below(#[trigger] ins[k], ev) by {}
        lemma_names_splice(elems, beta, ins, ev);
    }
}

/// A solution comes from a `Solved` element of the stack, so it names only
/// numbers below the counter.
proof fn lemma_solution_below(elems: Seq<Element>, n: usize, ev: nat)
    requires
        all_names_below(elems, ev),
    ensures
        solution_of(elems, n) matches Some(s) ==> type_below(s, ev),
{
    lemma_solution_is_declared(elems, n);
    if let Some(s) = solution_of(elems, n) {
        let k = choose|k: int| 0 <= k < elems.len() && elems[k] == Element::Solved(n, s);
        assert(names_below(elems[k], ev));
    }
}

/// Applying a context that names only numbers below `ev` to a type that does
/// too gives a type that does too.
pub proof fn lemma_apply_below(elems: Seq<Element>, t: Type, fuel: nat, ev: nat)
    requires
        all_names_below(elems, ev),
        type_below(t, ev),
        apply_fuel(elems, t, fuel) is Some,
    ensures
        type_below(apply_fuel(elems, t, fuel).unwrap(), ev),
    decreases fuel, t,
{
    lemma_type_below_parts(t, ev);
    match t {
        Type::Arrow(a, b) => {
            lemma_apply_below(elems, *a, fuel, ev);
            lemma_apply_below(elems, *b, fuel, ev);
            lemma_arrow_below(apply_fuel(elems, *a, fuel).unwrap(), apply_fuel(elems, *b, fuel).unwrap(), ev);
        },
        Type::Univ(a) => {
            lemma_apply_below(elems, *a, fuel, ev);
            let x = apply_fuel(elems, *a, fuel).unwrap();
            assert(free_exists(Type::Univ(Box::new(x))) == free_exists(x));
        },
        Type::Exist(n) => {
            lemma_solution_below(elems, n, ev);
            if let Some(s) = solution_of(elems, n) {
                lemma_apply_below(elems, s, (fuel - 1) as nat, ev);
            }
        },
        _ => {},
    }
}

/// A type well formed in a stack that names only numbers below `ev` names
/// only numbers below `ev`.
pub proof fn lemma_wf_below(elems: Seq<Element>, t: Type, ev: nat)
    requires
        all_names_below(elems, ev),
        wf_type(elems, t),
    ensures
        type_below(t, ev),
    decreases t,
{
    match t {
        Type::Arrow(a, b) => {
            lemma_wf_below(elems, *a, ev);
            lemma_wf_below(elems, *b, ev);
            lemma_arrow_below(*a, *b, ev);
        },
        Type::Univ(a) => {
            lemma_names_push(elems, Element::Var, ev);
            lemma_wf_below(elems.push(Element::Var), *a, ev);
            assert(free_exists(t) == free_exists(*a));
        },
        Type::Exist(n) => {
            lemma_solution_below(elems, n, ev);
            lemma_solution_is_declared(elems, n);
            if elems.contains(Element::Exist(n)) {
                let k = choose|k: int| 0 <= k < elems.len() && elems[k] == Element::Exist(n);
                assert(names_below(elems[k], ev));
            } else {
                let s = solution_of(elems, n).unwrap();
                let k = choose|k: int| 0 <= k < elems.len() && elems[k] == Element::Solved(n, s);
                assert(names_below(elems[k], ev));
            }
            lemma_exist_below(n, ev);
        },
        _ => {},
    }
}

/// An annotation found for a term variable names only numbers below `ev`.
proof fn lemma_annotation_below(elems: Seq<Element>, idx: nat, ev: nat)
    requires
        all_names_below(elems, ev),
    ensures
        find_ann(elems, idx) matches Some(t) ==> type_below(t, ev),
    decreases elems.len(),
{
    if elems.len() > 0 {
        assert(names_below(elems[elems.len() - 1], ev));
        lemma_names_subrange(elems, 0, elems.len() - 1, ev);
        assert(elems.drop_last() =~= elems.subrange(0, elems.len() - 1));
        if idx > 0 {
            lemma_annotation_below(elems.drop_last(), (idx - 1) as nat, ev);
        }
        lemma_annotation_below(elems.drop_last(), idx, ev);
    }
}

proof fn lemma_open_below(t: Type, c: int, alpha: usize, ev: nat)
    requires
        type_below(t, ev),
        alpha < ev,
    ensures
        type_below(open_at(t, c, alpha), ev),
{
    assert forall|n: usize| #[trigger] free_exists(open_at(t, c, alpha)).contains(n) implies n < ev by {
        lemma_open_exists(t, c, alpha, n);
    }
}

proof fn lemma_type_raise(t: Type, ev1: nat, ev2: nat)
    requires
        type_below(t, ev1),
        ev1 <= ev2,
    ensures
        type_below(t, ev2),
{
}

/// Fresh numbers stay fresh through subtyping: from a context that names
/// only numbers below its counter, comparing types that do too, a finished
/// run leaves a context that names only numbers below its counter.
pub proof fn lemma_subtype_names_below(fuel: nat, st: CtxState, a: Type, b: Type)
    requires
        all_names_below(st.elems, st.ev),
        type_below(a, st.ev),
        type_below(b, st.ev),
    ensures
        ends_named_below(subtype_run(fuel, st, a, b)),
    decreases fuel,
{
    if fuel > 0 {
        let g = (fuel - 1) as nat;
        lemma_type_below_parts(a, st.ev);
        lemma_type_below_parts(b, st.ev);
        match (a, b) {
            (Type::Unit, Type::Unit) => {},
            (Type::Var(x), Type::Var(y)) if x == y => {},
            (Type::Exist(x), Type::Exist(y)) if x == y => {},
            (Type::Arrow(a1, a2), Type::Arrow(b1, b2)) => {
                lemma_subtype_names_below(g, st, *b1, *a1);
                lemma_subtype_fresh_monotone(g, st, *b1, *a1);
                if let Run::Done(Ok(_), s1) = subtype_run(g, st, *b1, *a1) {
                    if let (Some(x), Some(y)) = (apply_fuel(s1.elems, *a2, g), apply_fuel(s1.elems, *b2, g)) {
                        lemma_type_raise(*a2, st.ev, s1.ev);
                        lemma_type_raise(*b2, st.ev, s1.ev);
                        lemma_apply_below(s1.elems, *a2, g, s1.ev);
                        lemma_apply_below(s1.elems, *b2, g, s1.ev);
                        lemma_subtype_names_below(g, s1, x, y);
                    }
                }
            },
            (Type::Univ(body), _) => {
                if st.ev + 1 <= usize::MAX {
                    let alpha = st.ev as usize;
                    let s0 = st_fresh(st, 1);
                    lemma_names_raise(st.elems, st.ev, s0.ev);
                    lemma_names_push(s0.elems, Element::Marker(alpha), s0.ev);
                    lemma_names_push(s0.elems.push(Element::Marker(alpha)), Element::Exist(alpha), s0.ev);
                    let s1 = st_push(st_push(s0, Element::Marker(alpha)), Element::Exist(alpha));
                    lemma_exist_below(alpha, s1.ev);
                    lemma_type_raise(*body, st.ev, s1.ev);
                    lemma_type_raise(b, st.ev, s1.ev);
                    lemma_open_below(*body, 0, alpha, s1.ev);
                    lemma_subtype_names_below(g, s1, open_at(*body, 0, alpha), b);
                    lemma_names_leave(subtype_run(g, s1, open_at(*body, 0, alpha), b), Element::Marker(alpha));
                }
            },
            (_, Type::Univ(body)) => {
                if st.ev + 1 <= usize::MAX {
                    let s0 = st_fresh(st, 1);
                    lemma_names_raise(st.elems, st.ev, s0.ev);
                    lemma_names_push(s0.elems, Element::Var, s0.ev);
                    let s1 = st_push(s0, Element::Var);
                    lemma_type_raise(a, st.ev, s1.ev);
                    lemma_type_raise(*body, st.ev, s1.ev);
                    lemma_subtype_names_below(g, s1, a, *body);
                    lemma_names_leave(subtype_run(g, s1, a, *body), Element::Var);
                }
            },
            (Type::Exist(alpha), _) if !free_exists(b).contains(alpha) => {
                lemma_inst_l_names_below(g, st, alpha, b);
            },
            (_, Type::Exist(alpha)) if !free_exists(a).contains(alpha) => {
                lemma_inst_r_names_below(g, st, a, alpha);
            },
            _ => {},
        }
    }
}

/// A finished left instantiation to a type naming only numbers below the
/// counter leaves a context that names only numbers below its counter.
pub proof fn lemma_inst_l_names_below(fuel: nat, st: CtxState, alpha: usize, a: Type)
    requires
        all_names_below(st.elems, st.ev),
        type_below(a, st.ev),
    ensures
        ends_named_below(inst_l_run(fuel, st, alpha, a)),
    decreases fuel,
{
    if fuel > 0 {
        let g = (fuel - 1) as nat;
        if let Some(idx) = last_exist(st.elems, alpha) {
            lemma_names_solve(st.elems, alpha, a, st.ev);
            lemma_declared_below(st.elems, alpha, st.ev);
            lemma_type_below_parts(a, st.ev);
            if !(is_monotype(a) && wf_type(st.elems.subrange(0, idx), a)) {
                match a {
                    Type::Arrow(t1, t2) => {
                        if st.ev + 2 <= usize::MAX {
                            let a1 = st.ev as usize;
                            let a2 = (st.ev + 1) as usize;
                            let s2 = st_fresh(st, 2);
                            lemma_names_articulation(st, alpha);
                            if let Some(elems) = splice(s2.elems, alpha, articulation(alpha, a1, a2)) {
                                let s3 = st_with(s2, elems);
                                lemma_type_raise(*t1, st.ev, s3.ev);
                                lemma_inst_r_names_below(g, s3, *t1, a1);
                                lemma_inst_r_fresh_monotone(g, s3, *t1, a1);
                                if let Run::Done(Ok(_), s4) = inst_r_run(g, s3, *t1, a1) {
                                    if let Some(t2a) = apply_fuel(s4.elems, *t2, g) {
                                        lemma_type_raise(*t2, st.ev, s4.ev);
                                        lemma_apply_below(s4.elems, *t2, g, s4.ev);
                                        lemma_inst_l_names_below(g, s4, a2, t2a);
                                    }
                                }
                            }
                        }
                    },
                    Type::Univ(body) => {
                        lemma_names_push(st.elems, Element::Var, st.ev);
                        let s1 = st_push(st, Element::Var);
                        lemma_inst_l_names_below(g, s1, alpha, *body);
                        lemma_names_leave(inst_l_run(g, s1, alpha, *body), Element::Var);
                    },
                    Type::Exist(beta) => {
                        lemma_names_reach(st.elems, beta, alpha, st.ev);
                    },
                    _ => {},
                }
            }
        }
    }
}

/// A finished right instantiation to a type naming only numbers below the
/// counter leaves a context that names only numbers below its counter.
pub proof fn lemma_inst_r_names_below(fuel: nat, st: CtxState, a: Type, alpha: usize)
    requires
        all_names_below(st.elems, st.ev),
        type_below(a, st.ev),
    ensures
        ends_named_below(inst_r_run(fuel, st, a, alpha)),
    decreases fuel,
{
    if fuel > 0 {
        let g = (fuel - 1) as nat;
        if let Some(idx) = last_exist(st.elems, alpha) {
            lemma_names_solve(st.elems, alpha, a, st.ev);
            lemma_declared_below(st.elems, alpha, st.ev);
            lemma_type_below_parts(a, st.ev);
            if !(is_monotype(a) && wf_type(st.elems.subrange(0, idx), a)) {
                match a {
                    Type::Arrow(t1, t2) => {
                        if st.ev + 2 <= usize::MAX {
                            let a1 = st.ev as usize;
                            let a2 = (st.ev + 1) as usize;
                            let s2 = st_fresh(st, 2);
                            lemma_names_articulation(st, alpha);
                            if let Some(elems) = splice(s2.elems, alpha, articulation(alpha, a1, a2)) {
                                let s3 = st_with(s2, elems);
                                lemma_type_raise(*t1, st.ev, s3.ev);
                                lemma_inst_l_names_below(g, s3, a1, *t1);
                                lemma_inst_l_fresh_monotone(g, s3, a1, *t1);
                                if let Run::Done(Ok(_), s4) = inst_l_run(g, s3, a1, *t1) {
                                    if let Some(t2a) = apply_fuel(s4.elems, *t2, g) {
                                        lemma_type_raise(*t2, st.ev, s4.ev);
                                        lemma_apply_below(s4.elems, *t2, g, s4.ev);
                                        lemma_inst_r_names_below(g, s4, t2a, a2);
                                    }
                                }
                            }
                        }
                    },
                    Type::Univ(body) => {
                        if st.ev + 1 <= usize::MAX {
                            let beta = st.ev as usize;
                            let s0 = st_fresh(st, 1);
                            lemma_names_raise(st.elems, st.ev, s0.ev);
                            lemma_names_push(s0.elems, Element::Marker(beta), s0.ev);
                            lemma_names_push(s0.elems.push(Element::Marker(beta)), Element::Exist(beta), s0.ev);
                            let s1 = st_push(st_push(s0, Element::Marker(beta)), Element::Exist(beta));
                            lemma_exist_below(beta, s1.ev);
                            lemma_type_raise(*body, st.ev, s1.ev);
                            lemma_open_below(*body, 0, beta, s1.ev);
                            lemma_inst_r_names_below(g, s1, open_at(*body, 0, beta), alpha);
                            lemma_names_leave(inst_r_run(g, s1, open_at(*body, 0, beta), alpha), Element::Marker(beta));
                        }
                    },
                    Type::Exist(beta) => {
                        lemma_names_reach(st.elems, beta, alpha, st.ev);
                    },
                    _ => {},
                }
            }
        }
    }
}

/// Existential variables get unique, increasing numbers: from a context that
/// names only numbers below its counter, a finished synthesis leaves a
/// context that names only numbers below its counter, and the type it
/// synthesizes names only such numbers too. Annotations in the expression
/// need no such condition: they are checked to be well formed first.
pub proof fn lemma_infer_names_below(fuel: nat, st: CtxState, e: Expr)
    requires
        all_names_below(st.elems, st.ev),
    ensures
        ends_typed_below(infer_run(fuel, st, e)),
    decreases fuel,
{
    if fuel > 0 {
        let g = (fuel - 1) as nat;
        match e {
            Expr::Ann(x, ty) => {
                if wf_type(st.elems, *ty) {
                    lemma_wf_below(st.elems, *ty, st.ev);
                    lemma_check_names_below(g, st, *x, *ty);
                    lemma_check_fresh_monotone(g, st, *x, *ty);
                    if let Run::Done(_, s1) = check_run(g, st, *x, *ty) {
                        lemma_type_raise(*ty, st.ev, s1.ev);
                    }
                }
            },
            Expr::Var(x) => {
                lemma_annotation_below(st.elems, x as nat, st.ev);
            },
            Expr::Abs(body) => {
                if st.ev + 2 <= usize::MAX {
                    let alpha = st.ev as usize;
                    let beta = (st.ev + 1) as usize;
                    let s0 = st_fresh(st, 2);
                    lemma_names_raise(st.elems, st.ev, s0.ev);
                    lemma_exist_below(alpha, s0.ev);
                    lemma_exist_below(beta, s0.ev);
                    lemma_names_push(s0.elems, Element::Exist(alpha), s0.ev);
                    lemma_names_push(s0.elems.push(Element::Exist(alpha)), Element::Exist(beta), s0.ev);
                    lemma_names_push(
                        s0.elems.push(Element::Exist(alpha)).push(Element::Exist(beta)),
                        Element::Ann(Type::Exist(alpha)),
                        s0.ev,
                    );
                    let s1 = st_push(
                        st_push(st_push(s0, Element::Exist(alpha)), Element::Exist(beta)),
                        Element::Ann(Type::Exist(alpha)),
                    );
                    lemma_check_names_below(g, s1, *body, Type::Exist(beta));
                    lemma_check_fresh_monotone(g, s1, *body, Type::Exist(beta));
                    lemma_names_leave(check_run(g, s1, *body, Type::Exist(beta)), Element::Ann(Type::Exist(alpha)));
                    if let Run::Done(_, s2) = check_run(g, s1, *body, Type::Exist(beta)) {
                        lemma_arrow_below(Type::Exist(alpha), Type::Exist(beta), s2.ev);
                    }
                }
            },
            Expr::App(e1, e2) => {
                lemma_infer_names_below(g, st, *e1);
                if let Run::Done(Ok(a), s1) = infer_run(g, st, *e1) {
                    if let Some(a1) = apply_fuel(s1.elems, a, g) {
                        lemma_apply_below(s1.elems, a, g, s1.ev);
                        lemma_infer_app_names_below(g, s1, a1, *e2);
                    }
                }
            },
            _ => {},
        }
    }
}

/// A finished application synthesis, from a context and a function type
/// that name only numbers below the counter, keeps that so and synthesizes
/// a type that does too.
pub proof fn lemma_infer_app_names_below(fuel: nat, st: CtxState, ty: Type, e2: Expr)
    requires
        all_names_below(st.elems, st.ev),
        type_below(ty, st.ev),
    ensures
        ends_typed_below(infer_app_run(fuel, st, ty, e2)),
    decreases fuel,
{
    if fuel > 0 {
        let g = (fuel - 1) as nat;
        lemma_type_below_parts(ty, st.ev);
        match ty {
            Type::Exist(alpha) => {
                if st.ev + 2 <= usize::MAX {
                    let a1 = st.ev as usize;
                    let a2 = (st.ev + 1) as usize;
                    let s2 = st_fresh(st, 2);
                    if let Some(elems) = splice(s2.elems, alpha, articulation(alpha, a1, a2)) {
                        lemma_names_raise(st.elems, st.ev, s2.ev);
                        crate::context::lemma_last_exist_bounds(s2.elems, alpha);
                        lemma_declared_below(st.elems, alpha, st.ev);
                        lemma_names_articulation(st, alpha);
                        let s3 = st_with(s2, elems);
                        lemma_exist_below(a1, s3.ev);
                        lemma_check_names_below(g, s3, e2, Type::Exist(a1));
                        lemma_check_fresh_monotone(g, s3, e2, Type::Exist(a1));
                        if let Run::Done(_, s4) = check_run(g, s3, e2, Type::Exist(a1)) {
                            lemma_exist_below(a2, s4.ev);
                        }
                    }
                }
            },
            Type::Arrow(a, b) => {
                lemma_check_names_below(g, st, e2, *a);
                lemma_check_fresh_monotone(g, st, e2, *a);
                if let Run::Done(_, s1) = check_run(g, st, e2, *a) {
                    lemma_type_raise(*b, st.ev, s1.ev);
                }
            },
            Type::Univ(a) => {
                if st.ev + 1 <= usize::MAX {
                    let alpha = st.ev as usize;
                    let s0 = st_fresh(st, 1);
                    lemma_names_raise(st.elems, st.ev, s0.ev);
                    lemma_names_push(s0.elems, Element::Exist(alpha), s0.ev);
                    lemma_exist_below(alpha, s0.ev);
                    lemma_type_raise(*a, st.ev, s0.ev);
                    lemma_open_below(*a, 0, alpha, s0.ev);
                    lemma_infer_app_names_below(
                        g,
                        st_push(s0, Element::Exist(alpha)),
                        open_at(*a, 0, alpha),
                        e2,
                    );
                }
            },
            _ => {},
        }
    }
}

/// A finished check, from a context and a type that name only numbers below
/// the counter, leaves a context that names only numbers below its counter.
pub proof fn lemma_check_names_below(fuel: nat, st: CtxState, e: Expr, a: Type)
    requires
        all_names_below(st.elems, st.ev),
        type_below(a, st.ev),
    ensures
        ends_named_below(check_run(fuel, st, e, a)),
    decreases fuel,
{
    if fuel > 0 {
        let g = (fuel - 1) as nat;
        lemma_type_below_parts(a, st.ev);
        match (e, a) {
            (Expr::Unit, Type::Unit) => {},
            (Expr::Abs(body), Type::Arrow(a1, a2)) => {
                lemma_names_push(st.elems, Element::Ann(*a1), st.ev);
                lemma_check_names_below(g, st_push(st, Element::Ann(*a1)), *body, *a2);
                lemma_names_leave(check_run(g, st_push(st, Element::Ann(*a1)), *body, *a2), Element::Ann(*a1));
            },
            (_, Type::Univ(ty)) => {
                lemma_names_push(st.elems, Element::Var, st.ev);
                lemma_check_names_below(g, st_push(st, Element::Var), e, *ty);
                lemma_names_leave(check_run(g, st_push(st, Element::Var), e, *ty), Element::Var);
            },
            _ => {
                lemma_infer_names_below(g, st, e);
                lemma_infer_fresh_monotone(g, st, e);
                if let Run::Done(Ok(t), s1) = infer_run(g, st, e) {
                    if let (Some(x), Some(y)) = (apply_fuel(s1.elems, t, g), apply_fuel(s1.elems, a, g)) {
                        lemma_type_raise(a, st.ev, s1.ev);
                        lemma_apply_below(s1.elems, t, g, s1.ev);
                        lemma_apply_below(s1.elems, a, g, s1.ev);
                        lemma_subtype_names_below(g, s1, x, y);
                    }
                }
            },
        }
    }
}

} // verus!
