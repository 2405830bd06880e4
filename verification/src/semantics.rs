//! The algorithmic typing judgments, as functions from a context state and
//! inputs to an outcome and the context state they leave behind.
//!
//! Each judgment takes a `fuel` bound on the depth of rule applications;
//! a run that would need more, or that would overflow the counter of fresh
//! variables, or that closes a scope no longer on the stack, ends `Stuck`. A run that ends `Done` is the algorithm's answer.
use vstd::prelude::*;
use crate::types::{Element, Expr, Type, TypeError, free_exists, is_monotype, open_at};
use crate::context::{CtxState, apply_fuel, find_ann, last_exist, pop_until, splice, wf_type};

verus! {

/// The outcome of running a judgment.
pub enum Run<T> {
    /// The judgment finished with this result, leaving this context.
    Done(Result<T, TypeError>, CtxState),
    /// The judgment does not finish within the fuel, or aborts.
    Stuck,
}

/// The state with `e` pushed on top of the stack.
pub open spec fn st_push(st: CtxState, e: Element) -> CtxState {
    CtxState { elems: st.elems.push(e), ev: st.ev }
}

/// The state with its stack replaced.
pub open spec fn st_with(st: CtxState, elems: Seq<Element>) -> CtxState {
    CtxState { elems: elems, ev: st.ev }
}

/// The state after taking `k` fresh existential variables.
pub open spec fn st_fresh(st: CtxState, k: nat) -> CtxState {
    CtxState { elems: st.elems, ev: st.ev + k }
}

/// Whether `k` fresh existential variables can be taken without overflow.
pub open spec fn can_fresh(st: CtxState, k: nat) -> bool {
    st.ev + k <= usize::MAX
}

/// Closing a scope opened by pushing `e`: whatever the run ended with, the
/// stack is cut back below the top-most element equal to `e`.
pub open spec fn leave_scope<T>(r: Run<T>, e: Element) -> Run<T> {
    match r {
        Run::Done(res, st) => match pop_until(st.elems, e) {
            Some(elems) => Run::Done(res, st_with(st, elems)),
            None => Run::Stuck,
        },
        Run::Stuck => Run::Stuck,
    }
}

/// The elements that replace an existential variable `alpha` when it is
/// articulated into a function type between two fresh variables.
pub open spec fn articulation(alpha: usize, a1: usize, a2: usize) -> Seq<Element> {
    seq![
        Element::Exist(a2),
        Element::Exist(a1),
        Element::Solved(alpha, Type::Arrow(Box::new(Type::Exist(a1)), Box::new(Type::Exist(a2)))),
    ]
}

/// Algorithmic subtyping `a <: b`.
pub open spec fn subtype_run(fuel: nat, st: CtxState, a: Type, b: Type) -> Run<()>
    decreases fuel,
{
    if fuel == 0 {
        Run::Stuck
    } else {
        let g = (fuel - 1) as nat;
        match (a, b) {
            (Type::Unit, Type::Unit) => Run::Done(Ok(()), st),
            (Type::Var(x), Type::Var(y)) if x == y => Run::Done(Ok(()), st),
            (Type::Exist(x), Type::Exist(y)) if x == y => Run::Done(Ok(()), st),
            (Type::Arrow(a1, a2), Type::Arrow(b1, b2)) => match subtype_run(g, st, *b1, *a1) {
                Run::Done(Ok(_), s1) => match (apply_fuel(s1.elems, *a2, g), apply_fuel(s1.elems, *b2, g)) {
                    (Some(x), Some(y)) => subtype_run(g, s1, x, y),
                    _ => Run::Stuck,
                },
                other => other,
            },
            // The bound variable is opened with a fresh existential variable,
            // declared inside a scope marked by the same number.
            (Type::Univ(body), _) => if can_fresh(st, 1) {
                let alpha = st.ev as usize;
                let s1 = st_push(st_push(st_fresh(st, 1), Element::Marker(alpha)), Element::Exist(alpha));
                leave_scope(subtype_run(g, s1, open_at(*body, 0, alpha), b), Element::Marker(alpha))
            } else {
                Run::Stuck
            },
            (_, Type::Univ(body)) => if can_fresh(st, 1) {
                let s1 = st_push(st_fresh(st, 1), Element::Var);
                leave_scope(subtype_run(g, s1, a, *body), Element::Var)
            } else {
                Run::Stuck
            },
            (Type::Exist(alpha), _) if !free_exists(b).contains(alpha) => inst_l_run(g, st, alpha, b),
            (_, Type::Exist(alpha)) if !free_exists(a).contains(alpha) => inst_r_run(g, st, a, alpha),
            _ => Run::Done(Err(TypeError::NotSubtype(a, b)), st),
        }
    }
}

/// Instantiating `alpha` so that `alpha <: a`.
pub open spec fn inst_l_run(fuel: nat, st: CtxState, alpha: usize, a: Type) -> Run<()>
    decreases fuel,
{
    if fuel == 0 {
        Run::Stuck
    } else {
        let g = (fuel - 1) as nat;
        match last_exist(st.elems, alpha) {
            None => Run::Done(Err(TypeError::NotBound(alpha)), st),
            Some(idx) => {
                let l = st.elems.subrange(0, idx);
                let r = st.elems.subrange(idx + 1, st.elems.len() as int);
                if is_monotype(a) && wf_type(l, a) {
                    // InstLSolve
                    Run::Done(Ok(()), st_with(st, l.push(Element::Solved(alpha, a)) + r))
                } else {
                    match a {
                        // InstLArr
                        Type::Arrow(t1, t2) => if can_fresh(st, 2) {
                            let a1 = st.ev as usize;
                            let a2 = (st.ev + 1) as usize;
                            let s2 = st_fresh(st, 2);
                            match splice(s2.elems, alpha, articulation(alpha, a1, a2)) {
                                None => Run::Done(Err(TypeError::NotBound(alpha)), s2),
                                Some(elems) => match inst_r_run(g, st_with(s2, elems), *t1, a1) {
                                    Run::Done(Ok(_), s4) => match apply_fuel(s4.elems, *t2, g) {
                                        Some(t2a) => inst_l_run(g, s4, a2, t2a),
                                        None => Run::Stuck,
                                    },
                                    other => other,
                                },
                            }
                        } else {
                            Run::Stuck
                        },
                        // InstLAllR: the bound variable becomes a universal
                        // variable declared after `alpha`, in its own scope
                        Type::Univ(body) => leave_scope(
                            inst_l_run(g, st_push(st, Element::Var), alpha, *body),
                            Element::Var,
                        ),
                        // InstLReach
                        Type::Exist(beta) => match splice(st.elems, beta, seq![Element::Solved(beta, Type::Exist(alpha))]) {
                            Some(elems) => Run::Done(Ok(()), st_with(st, elems)),
                            None => Run::Done(Err(TypeError::NotBound(beta)), st),
                        },
                        _ => Run::Done(Err(TypeError::CannotInstantiate(alpha, a)), st),
                    }
                }
            },
        }
    }
}

/// Instantiating `alpha` so that `a <: alpha`.
pub open spec fn inst_r_run(fuel: nat, st: CtxState, a: Type, alpha: usize) -> Run<()>
    decreases fuel,
{
    if fuel == 0 {
        Run::Stuck
    } else {
        let g = (fuel - 1) as nat;
        match last_exist(st.elems, alpha) {
            None => Run::Done(Err(TypeError::NotBound(alpha)), st),
            Some(idx) => {
                let l = st.elems.subrange(0, idx);
                let r = st.elems.subrange(idx + 1, st.elems.len() as int);
                if is_monotype(a) && wf_type(l, a) {
                    // InstRSolve
                    Run::Done(Ok(()), st_with(st, l.push(Element::Solved(alpha, a)) + r))
                } else {
                    match a {
                        // InstRArr
                        Type::Arrow(t1, t2) => if can_fresh(st, 2) {
                            let a1 = st.ev as usize;
                            let a2 = (st.ev + 1) as usize;
                            let s2 = st_fresh(st, 2);
                            match splice(s2.elems, alpha, articulation(alpha, a1, a2)) {
                                None => Run::Done(Err(TypeError::NotBound(alpha)), s2),
                                Some(elems) => match inst_l_run(g, st_with(s2, elems), a1, *t1) {
                                    Run::Done(Ok(_), s4) => match apply_fuel(s4.elems, *t2, g) {
                                        Some(t2a) => inst_r_run(g, s4, t2a, a2),
                                        None => Run::Stuck,
                                    },
                                    other => other,
                                },
                            }
                        } else {
                            Run::Stuck
                        },
                        // InstRAllL: the body is opened with a fresh
                        // existential variable, declared inside a scope marked
                        // by the same number
                        Type::Univ(body) => if can_fresh(st, 1) {
                            let beta = st.ev as usize;
                            let s1 = st_push(st_push(st_fresh(st, 1), Element::Marker(beta)), Element::Exist(beta));
                            leave_scope(inst_r_run(g, s1, open_at(*body, 0, beta), alpha), Element::Marker(beta))
                        } else {
                            Run::Stuck
                        },
                        // InstRReach
                        Type::Exist(beta) => match splice(st.elems, beta, seq![Element::Solved(beta, Type::Exist(alpha))]) {
                            Some(elems) => Run::Done(Ok(()), st_with(st, elems)),
                            None => Run::Done(Err(TypeError::NotBound(beta)), st),
                        },
                        _ => Run::Done(Err(TypeError::CannotInstantiate(alpha, a)), st),
                    }
                }
            },
        }
    }
}

/// Type synthesis `e => A`.
pub open spec fn infer_run(fuel: nat, st: CtxState, e: Expr) -> Run<Type>
    decreases fuel,
{
    if fuel == 0 {
        Run::Stuck
    } else {
        let g = (fuel - 1) as nat;
        match e {
            Expr::Unit => Run::Done(Ok(Type::Unit), st),
            Expr::Ann(x, ty) => if !wf_type(st.elems, *ty) {
                Run::Done(Err(TypeError::NotWellFormed(*ty)), st)
            } else {
                match check_run(g, st, *x, *ty) {
                    Run::Done(Ok(_), s1) => Run::Done(Ok(*ty), s1),
                    Run::Done(Err(err), s1) => Run::Done(Err(err), s1),
                    Run::Stuck => Run::Stuck,
                }
            },
            Expr::Var(x) => match find_ann(st.elems, x as nat) {
                Some(t) => Run::Done(Ok(t), st),
                None => Run::Done(Err(TypeError::UnboundVar(x)), st),
            },
            Expr::Abs(body) => if can_fresh(st, 2) {
                let alpha = st.ev as usize;
                let beta = (st.ev + 1) as usize;
                let s1 = st_push(
                    st_push(st_push(st_fresh(st, 2), Element::Exist(alpha)), Element::Exist(beta)),
                    Element::Ann(Type::Exist(alpha)),
                );
                match leave_scope(check_run(g, s1, *body, Type::Exist(beta)), Element::Ann(Type::Exist(alpha))) {
                    Run::Done(Ok(_), s2) => Run::Done(
                        Ok(Type::Arrow(Box::new(Type::Exist(alpha)), Box::new(Type::Exist(beta)))),
                        s2,
                    ),
                    Run::Done(Err(err), s2) => Run::Done(Err(err), s2),
                    Run::Stuck => Run::Stuck,
                }
            } else {
                Run::Stuck
            },
            Expr::App(e1, e2) => match infer_run(g, st, *e1) {
                Run::Done(Ok(a), s1) => match apply_fuel(s1.elems, a, g) {
                    Some(a1) => infer_app_run(g, s1, a1, *e2),
                    None => Run::Stuck,
                },
                Run::Done(Err(err), s1) => Run::Done(Err(err), s1),
                Run::Stuck => Run::Stuck,
            },
        }
    }
}

/// Application synthesis: applying a function of type `ty` to `e2`.
pub open spec fn infer_app_run(fuel: nat, st: CtxState, ty: Type, e2: Expr) -> Run<Type>
    decreases fuel,
{
    if fuel == 0 {
        Run::Stuck
    } else {
        let g = (fuel - 1) as nat;
        match ty {
            Type::Exist(alpha) => if can_fresh(st, 2) {
                let a1 = st.ev as usize;
                let a2 = (st.ev + 1) as usize;
                let s2 = st_fresh(st, 2);
                match splice(s2.elems, alpha, articulation(alpha, a1, a2)) {
                    None => Run::Done(Err(TypeError::NotBound(alpha)), s2),
                    Some(elems) => match check_run(g, st_with(s2, elems), e2, Type::Exist(a1)) {
                        Run::Done(Ok(_), s3) => Run::Done(Ok(Type::Exist(a2)), s3),
                        Run::Done(Err(err), s3) => Run::Done(Err(err), s3),
                        Run::Stuck => Run::Stuck,
                    },
                }
            } else {
                Run::Stuck
            },
            Type::Arrow(a, b) => match check_run(g, st, e2, *a) {
                Run::Done(Ok(_), s1) => Run::Done(Ok(*b), s1),
                Run::Done(Err(err), s1) => Run::Done(Err(err), s1),
                Run::Stuck => Run::Stuck,
            },
            Type::Univ(a) => if can_fresh(st, 1) {
                let alpha = st.ev as usize;
                infer_app_run(
                    g,
                    st_push(st_fresh(st, 1), Element::Exist(alpha)),
                    open_at(*a, 0, alpha),
                    e2,
                )
            } else {
                Run::Stuck
            },
            _ => Run::Done(Err(TypeError::CannotApply(e2, ty)), st),
        }
    }
}

/// Type checking `e <= a`.
pub open spec fn check_run(fuel: nat, st: CtxState, e: Expr, a: Type) -> Run<()>
    decreases fuel,
{
    if fuel == 0 {
        Run::Stuck
    } else {
        let g = (fuel - 1) as nat;
        match (e, a) {
            (Expr::Unit, Type::Unit) => Run::Done(Ok(()), st),
            (Expr::Abs(body), Type::Arrow(a1, a2)) => leave_scope(
                check_run(g, st_push(st, Element::Ann(*a1)), *body, *a2),
                Element::Ann(*a1),
            ),
            (_, Type::Univ(ty)) => leave_scope(check_run(g, st_push(st, Element::Var), e, *ty), Element::Var),
            _ => match infer_run(g, st, e) {
                Run::Done(Ok(t), s1) => match (apply_fuel(s1.elems, t, g), apply_fuel(s1.elems, a, g)) {
                    (Some(x), Some(y)) => subtype_run(g, s1, x, y),
                    _ => Run::Stuck,
                },
                Run::Done(Err(err), s1) => Run::Done(Err(err), s1),
                Run::Stuck => Run::Stuck,
            },
        }
    }
}

} // verus!

verus! {

/// Subtyping `a <: b` finishes from `st` within some fuel.
pub open spec fn subtype_finishes(st: CtxState, a: Type, b: Type) -> bool {
    exists|fuel: nat| #[trigger] subtype_run(fuel, st, a, b) is Done
}

/// Instantiating `alpha <: a` finishes from `st` within some fuel.
pub open spec fn inst_l_finishes(st: CtxState, alpha: usize, a: Type) -> bool {
    exists|fuel: nat| #[trigger] inst_l_run(fuel, st, alpha, a) is Done
}

/// Instantiating `a <: alpha` finishes from `st` within some fuel.
pub open spec fn inst_r_finishes(st: CtxState, a: Type, alpha: usize) -> bool {
    exists|fuel: nat| #[trigger] inst_r_run(fuel, st, a, alpha) is Done
}

/// Synthesis for `e` finishes from `st` within some fuel.
pub open spec fn infer_finishes(st: CtxState, e: Expr) -> bool {
    exists|fuel: nat| #[trigger] infer_run(fuel, st, e) is Done
}

/// Application synthesis finishes from `st` within some fuel.
pub open spec fn infer_app_finishes(st: CtxState, ty: Type, e2: Expr) -> bool {
    exists|fuel: nat| #[trigger] infer_app_run(fuel, st, ty, e2) is Done
}

/// Checking `e <= a` finishes from `st` within some fuel.
pub open spec fn check_finishes(st: CtxState, e: Expr, a: Type) -> bool {
    exists|fuel: nat| #[trigger] check_run(fuel, st, e, a) is Done
}

/// A finished subtyping run gives the same outcome with any larger fuel.
pub proof fn lemma_subtype_mono(f1: nat, f2: nat, st: CtxState, a: Type, b: Type)
    requires
        subtype_run(f1, st, a, b) is Done,
        f1 <= f2,
    ensures
        subtype_run(f2, st, a, b) == subtype_run(f1, st, a, b),
    decreases f1,
{
    let g1 = (f1 - 1) as nat;
    let g2 = (f2 - 1) as nat;
    match (a, b) {
        (Type::Unit, Type::Unit) => {},
        (Type::Var(x), Type::Var(y)) if x == y => {},
        (Type::Exist(x), Type::Exist(y)) if x == y => {},
        (Type::Arrow(a1, a2), Type::Arrow(b1, b2)) => {
            lemma_subtype_mono(g1, g2, st, *b1, *a1);
            if let Run::Done(Ok(_), s1) = subtype_run(g1, st, *b1, *a1) {
                crate::context::lemma_apply_fuel_mono(s1.elems, *a2, g1, g2);
                crate::context::lemma_apply_fuel_mono(s1.elems, *b2, g1, g2);
                let x = apply_fuel(s1.elems, *a2, g1).unwrap();
                let y = apply_fuel(s1.elems, *b2, g1).unwrap();
                lemma_subtype_mono(g1, g2, s1, x, y);
            }
        },
        (Type::Univ(body), _) => {
            let alpha = st.ev as usize;
            let s1 = st_push(st_push(st_fresh(st, 1), Element::Marker(alpha)), Element::Exist(alpha));
            lemma_subtype_mono(g1, g2, s1, open_at(*body, 0, alpha), b);
        },
        (_, Type::Univ(body)) => {
            let s1 = st_push(st_fresh(st, 1), Element::Var);
            lemma_subtype_mono(g1, g2, s1, a, *body);
        },
        (Type::Exist(alpha), _) if !free_exists(b).contains(alpha) => {
            lemma_inst_l_mono(g1, g2, st, alpha, b);
        },
        (_, Type::Exist(alpha)) if !free_exists(a).contains(alpha) => {
            lemma_inst_r_mono(g1, g2, st, a, alpha);
        },
        _ => {},
    }
}

/// A finished left instantiation gives the same outcome with any larger fuel.
pub proof fn lemma_inst_l_mono(f1: nat, f2: nat, st: CtxState, alpha: usize, a: Type)
    requires
        inst_l_run(f1, st, alpha, a) is Done,
        f1 <= f2,
    ensures
        inst_l_run(f2, st, alpha, a) == inst_l_run(f1, st, alpha, a),
    decreases f1,
{
    let g1 = (f1 - 1) as nat;
    let g2 = (f2 - 1) as nat;
    if let Some(idx) = last_exist(st.elems, alpha) {
        let l = st.elems.subrange(0, idx);
        if !(is_monotype(a) && wf_type(l, a)) {
            if let Type::Arrow(t1, t2) = a {
                let a1 = st.ev as usize;
                let a2 = (st.ev + 1) as usize;
                let s2 = st_fresh(st, 2);
                if let Some(elems) = splice(s2.elems, alpha, articulation(alpha, a1, a2)) {
                    lemma_inst_r_mono(g1, g2, st_with(s2, elems), *t1, a1);
                    if let Run::Done(Ok(_), s4) = inst_r_run(g1, st_with(s2, elems), *t1, a1) {
                        crate::context::lemma_apply_fuel_mono(s4.elems, *t2, g1, g2);
                        let t2a = apply_fuel(s4.elems, *t2, g1).unwrap();
                        lemma_inst_l_mono(g1, g2, s4, a2, t2a);
                    }
                }
            } else if let Type::Univ(body) = a {
                lemma_inst_l_mono(g1, g2, st_push(st, Element::Var), alpha, *body);
            }
        }
    }
}

/// A finished right instantiation gives the same outcome with any larger fuel.
pub proof fn lemma_inst_r_mono(f1: nat, f2: nat, st: CtxState, a: Type, alpha: usize)
    requires
        inst_r_run(f1, st, a, alpha) is Done,
        f1 <= f2,
    ensures
        inst_r_run(f2, st, a, alpha) == inst_r_run(f1, st, a, alpha),
    decreases f1,
{
    let g1 = (f1 - 1) as nat;
    let g2 = (f2 - 1) as nat;
    if let Some(idx) = last_exist(st.elems, alpha) {
        let l = st.elems.subrange(0, idx);
        if !(is_monotype(a) && wf_type(l, a)) {
            if let Type::Arrow(t1, t2) = a {
                let a1 = st.ev as usize;
                let a2 = (st.ev + 1) as usize;
                let s2 = st_fresh(st, 2);
                if let Some(elems) = splice(s2.elems, alpha, articulation(alpha, a1, a2)) {
                    lemma_inst_l_mono(g1, g2, st_with(s2, elems), a1, *t1);
                    if let Run::Done(Ok(_), s4) = inst_l_run(g1, st_with(s2, elems), a1, *t1) {
                        crate::context::lemma_apply_fuel_mono(s4.elems, *t2, g1, g2);
                        let t2a = apply_fuel(s4.elems, *t2, g1).unwrap();
                        lemma_inst_r_mono(g1, g2, s4, t2a, a2);
                    }
                }
            } else if let Type::Univ(body) = a {
                let beta = st.ev as usize;
                let s1 = st_push(st_push(st_fresh(st, 1), Element::Marker(beta)), Element::Exist(beta));
                lemma_inst_r_mono(g1, g2, s1, open_at(*body, 0, beta), alpha);
            }
        }
    }
}

/// A finished synthesis gives the same outcome with any larger fuel.
pub proof fn lemma_infer_mono(f1: nat, f2: nat, st: CtxState, e: Expr)
    requires
        infer_run(f1, st, e) is Done,
        f1 <= f2,
    ensures
        infer_run(f2, st, e) == infer_run(f1, st, e),
    decreases f1,
{
    let g1 = (f1 - 1) as nat;
    let g2 = (f2 - 1) as nat;
    match e {
        Expr::Ann(x, ty) => {
            if wf_type(st.elems, *ty) {
                lemma_check_mono(g1, g2, st, *x, *ty);
            }
        },
        Expr::Abs(body) => {
            let alpha = st.ev as usize;
            let beta = (st.ev + 1) as usize;
            let s1 = st_push(
                st_push(st_push(st_fresh(st, 2), Element::Exist(alpha)), Element::Exist(beta)),
                Element::Ann(Type::Exist(alpha)),
            );
            lemma_check_mono(g1, g2, s1, *body, Type::Exist(beta));
        },
        Expr::App(e1, e2) => {
            lemma_infer_mono(g1, g2, st, *e1);
            if let Run::Done(Ok(a), s1) = infer_run(g1, st, *e1) {
                crate::context::lemma_apply_fuel_mono(s1.elems, a, g1, g2);
                let a1 = apply_fuel(s1.elems, a, g1).unwrap();
                lemma_infer_app_mono(g1, g2, s1, a1, *e2);
            }
        },
        _ => {},
    }
}

/// A finished application synthesis gives the same outcome with any larger
/// fuel.
pub proof fn lemma_infer_app_mono(f1: nat, f2: nat, st: CtxState, ty: Type, e2: Expr)
    requires
        infer_app_run(f1, st, ty, e2) is Done,
        f1 <= f2,
    ensures
        infer_app_run(f2, st, ty, e2) == infer_app_run(f1, st, ty, e2),
    decreases f1,
{
    let g1 = (f1 - 1) as nat;
    let g2 = (f2 - 1) as nat;
    match ty {
        Type::Exist(alpha) => {
            let a1 = st.ev as usize;
            let a2 = (st.ev + 1) as usize;
            let s2 = st_fresh(st, 2);
            if let Some(elems) = splice(s2.elems, alpha, articulation(alpha, a1, a2)) {
                lemma_check_mono(g1, g2, st_with(s2, elems), e2, Type::Exist(a1));
            }
        },
        Type::Arrow(a, _) => {
            lemma_check_mono(g1, g2, st, e2, *a);
        },
        Type::Univ(a) => {
            let alpha = st.ev as usize;
            lemma_infer_app_mono(
                g1,
                g2,
                st_push(st_fresh(st, 1), Element::Exist(alpha)),
                open_at(*a, 0, alpha),
                e2,
            );
        },
        _ => {},
    }
}

/// A finished check gives the same outcome with any larger fuel.
pub proof fn lemma_check_mono(f1: nat, f2: nat, st: CtxState, e: Expr, a: Type)
    requires
        check_run(f1, st, e, a) is Done,
        f1 <= f2,
    ensures
        check_run(f2, st, e, a) == check_run(f1, st, e, a),
    decreases f1,
{
    let g1 = (f1 - 1) as nat;
    let g2 = (f2 - 1) as nat;
    match (e, a) {
        (Expr::Unit, Type::Unit) => {},
        (Expr::Abs(body), Type::Arrow(a1, a2)) => {
            lemma_check_mono(g1, g2, st_push(st, Element::Ann(*a1)), *body, *a2);
        },
        (_, Type::Univ(ty)) => {
            lemma_check_mono(g1, g2, st_push(st, Element::Var), e, *ty);
        },
        _ => {
            lemma_infer_mono(g1, g2, st, e);
            if let Run::Done(Ok(t), s1) = infer_run(g1, st, e) {
                crate::context::lemma_apply_fuel_mono(s1.elems, t, g1, g2);
                crate::context::lemma_apply_fuel_mono(s1.elems, a, g1, g2);
                let x = apply_fuel(s1.elems, t, g1).unwrap();
                let y = apply_fuel(s1.elems, a, g1).unwrap();
                lemma_subtype_mono(g1, g2, s1, x, y);
            }
        },
    }
}

} // verus!
