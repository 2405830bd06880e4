//! The typing judgments with an explicit bound on the depth of rule
//! applications: each answers `None` where the bound does not suffice or the
//! algorithm would abort, and otherwise exactly what the judgment gives.
//! Callers that cannot show a run finishes use these.
use vstd::prelude::*;
use crate::types::{Element, Expr, Type, TypeError};
use crate::context::Context;
use crate::algorithm::{articulate, occurs};
use crate::semantics::{Run, check_run, infer_app_run, infer_run, inst_l_run, inst_r_run, subtype_run};

verus! {

/// `r` is the answer of `run`, and `fin` the context it leaves; `None`
/// exactly when the run is stuck.
pub open spec fn answers<T>(run: Run<T>, r: Option<Result<T, TypeError>>, fin: crate::context::CtxState) -> bool {
    match run {
        Run::Done(res, s) => r == Some(res) && fin == s,
        Run::Stuck => r is None,
    }
}

impl Context {
    /// Subtyping `a <: b` within `fuel` nested rule applications.
    pub fn subtype_within(&mut self, a: &Type, b: &Type, fuel: u64) -> (r: Option<Result<(), TypeError>>)
        ensures
            answers(subtype_run(fuel as nat, old(self)@, *a, *b), r, final(self)@),
        decreases fuel,
    {
        if fuel == 0 {
            return None;
        }
        let g = fuel - 1;
        match (a, b) {
            (Type::Unit, Type::Unit) => Some(Ok(())),
            (Type::Var(x), Type::Var(y)) if *x == *y => Some(Ok(())),
            (Type::Exist(x), Type::Exist(y)) if *x == *y => Some(Ok(())),
            (Type::Arrow(a1, a2), Type::Arrow(b1, b2)) => {
                match self.subtype_within(b1, a1, g) {
                    Some(Ok(())) => {},
                    other => return other,
                }
                let x = match self.apply_within(a2.duplicate(), g) {
                    Some(x) => x,
                    None => return None,
                };
                let y = match self.apply_within(b2.duplicate(), g) {
                    Some(y) => y,
                    None => return None,
                };
                self.subtype_within(&x, &y, g)
            },
            (Type::Univ(body), _) => {
                if self.next_ev() == usize::MAX {
                    return None;
                }
                let alpha = self.fresh_ev();
                let a_ = body.open_with(alpha);
                self.push(Element::Marker(alpha));
                self.push(Element::Exist(alpha));
                match self.subtype_within(&a_, b, g) {
                    Some(res) => if self.try_pop_scope(&Element::Marker(alpha)) {
                        Some(res)
                    } else {
                        None
                    },
                    None => None,
                }
            },
            (_, Type::Univ(body)) => {
                if self.next_ev() == usize::MAX {
                    return None;
                }
                let _alpha = self.fresh_ev();
                self.push(Element::Var);
                match self.subtype_within(a, body, g) {
                    Some(res) => if self.try_pop_scope(&Element::Var) {
                        Some(res)
                    } else {
                        None
                    },
                    None => None,
                }
            },
            _ => {
                if let Type::Exist(alpha) = a {
                    if !occurs(&b.freevars(), *alpha) {
                        return self.instantiateL_within(*alpha, b, g);
                    }
                }
                if let Type::Exist(alpha) = b {
                    if !occurs(&a.freevars(), *alpha) {
                        return self.instantiateR_within(a, *alpha, g);
                    }
                }
                Some(Err(TypeError::NotSubtype(a.duplicate(), b.duplicate())))
            },
        }
    }

    /// Instantiating `alpha <: a` within `fuel` nested rule applications.
    pub fn instantiateL_within(&mut self, alpha: usize, a: &Type, fuel: u64) -> (r: Option<Result<(), TypeError>>)
        ensures
            answers(inst_l_run(fuel as nat, old(self)@, alpha, *a), r, final(self)@),
        decreases fuel,
    {
        if fuel == 0 {
            return None;
        }
        let g = fuel - 1;
        let ghost st = self@;
        let r = match self.split_context(alpha) {
            Ok(r) => r,
            Err(e) => return Some(Err(e)),
        };
        if a.monotype() && self.well_formed(a) {
            self.push(Element::Solved(alpha, a.duplicate()));
            self.extend(r);
            return Some(Ok(()));
        } else {
            self.push(Element::Exist(alpha));
            self.extend(r);
        }
        proof {
            crate::laws::lemma_split_then_restore(st.elems, alpha);
        }
        assert(self@ == st);
        match a {
            Type::Arrow(t1, t2) => {
                if self.next_ev() >= usize::MAX - 1 {
                    return None;
                }
                let a1 = self.fresh_ev();
                let a2 = self.fresh_ev();
                if let Err(e) = self.splice_hole(alpha, articulate(alpha, a1, a2)) {
                    return Some(Err(e));
                }
                match self.instantiateR_within(t1, a1, g) {
                    Some(Ok(())) => {},
                    other => return other,
                }
                let t2a = match self.apply_within(t2.duplicate(), g) {
                    Some(t) => t,
                    None => return None,
                };
                self.instantiateL_within(a2, &t2a, g)
            },
            // InstLAllR is not implemented
            Type::Univ(body) => {
                self.push(Element::Var);
                match self.instantiateL_within(alpha, body, g) {
                    Some(res) => if self.try_pop_scope(&Element::Var) {
                        Some(res)
                    } else {
                        None
                    },
                    None => None,
                }
            },
            Type::Exist(beta) => {
                let mut v: Vec<Element> = Vec::new();
                v.push(Element::Solved(*beta, Type::Exist(alpha)));
                assert(v@ =~= seq![Element::Solved(*beta, Type::Exist(alpha))]);
                Some(self.splice_hole(*beta, v))
            },
            _ => Some(Err(TypeError::CannotInstantiate(alpha, a.duplicate()))),
        }
    }

    /// Instantiating `a <: alpha` within `fuel` nested rule applications.
    pub fn instantiateR_within(&mut self, a: &Type, alpha: usize, fuel: u64) -> (r: Option<Result<(), TypeError>>)
        ensures
            answers(inst_r_run(fuel as nat, old(self)@, *a, alpha), r, final(self)@),
        decreases fuel,
    {
        if fuel == 0 {
            return None;
        }
        let g = fuel - 1;
        let ghost st = self@;
        let r = match self.split_context(alpha) {
            Ok(r) => r,
            Err(e) => return Some(Err(e)),
        };
        if a.monotype() && self.well_formed(a) {
            self.push(Element::Solved(alpha, a.duplicate()));
            self.extend(r);
            return Some(Ok(()));
        } else {
            self.push(Element::Exist(alpha));
            self.extend(r);
        }
        proof {
            crate::laws::lemma_split_then_restore(st.elems, alpha);
        }
        assert(self@ == st);
        match a {
            Type::Arrow(t1, t2) => {
                if self.next_ev() >= usize::MAX - 1 {
                    return None;
                }
                let a1 = self.fresh_ev();
                let a2 = self.fresh_ev();
                if let Err(e) = self.splice_hole(alpha, articulate(alpha, a1, a2)) {
                    return Some(Err(e));
                }
                match self.instantiateL_within(a1, t1, g) {
                    Some(Ok(())) => {},
                    other => return other,
                }
                let t2a = match self.apply_within(t2.duplicate(), g) {
                    Some(t) => t,
                    None => return None,
                };
                self.instantiateR_within(&t2a, a2, g)
            },
            // InstRAllL is not implemented
            Type::Univ(body) => {
                if self.next_ev() == usize::MAX {
                    return None;
                }
                let beta = self.fresh_ev();
                let b_ = body.open_with(beta);
                self.push(Element::Marker(beta));
                self.push(Element::Exist(beta));
                match self.instantiateR_within(&b_, alpha, g) {
                    Some(res) => if self.try_pop_scope(&Element::Marker(beta)) {
                        Some(res)
                    } else {
                        None
                    },
                    None => None,
                }
            },
            Type::Exist(beta) => {
                let mut v: Vec<Element> = Vec::new();
                v.push(Element::Solved(*beta, Type::Exist(alpha)));
                assert(v@ =~= seq![Element::Solved(*beta, Type::Exist(alpha))]);
                Some(self.splice_hole(*beta, v))
            },
            _ => Some(Err(TypeError::CannotInstantiate(alpha, a.duplicate()))),
        }
    }

    /// Synthesis for `e` within `fuel` nested rule applications.
    pub fn infer_within(&mut self, e: &Expr, fuel: u64) -> (r: Option<Result<Type, TypeError>>)
        ensures
            answers(infer_run(fuel as nat, old(self)@, *e), r, final(self)@),
        decreases fuel,
    {
        if fuel == 0 {
            return None;
        }
        let g = fuel - 1;
        match e {
            Expr::Unit => Some(Ok(Type::Unit)),
            Expr::Ann(x, ty) => {
                if let Err(err) = self.check_wf(ty) {
                    return Some(Err(err));
                }
                match self.check_within(x, ty, g) {
                    Some(Ok(())) => Some(Ok(ty.duplicate())),
                    Some(Err(err)) => Some(Err(err)),
                    None => None,
                }
            },
            Expr::Var(x) => match self.find_annotation(*x) {
                Some(t) => Some(Ok(t.duplicate())),
                None => Some(Err(TypeError::UnboundVar(*x))),
            },
            Expr::Abs(body) => {
                if self.next_ev() >= usize::MAX - 1 {
                    return None;
                }
                let alpha = self.fresh_ev();
                let beta = self.fresh_ev();
                self.push(Element::Exist(alpha));
                self.push(Element::Exist(beta));
                self.push(Element::Ann(Type::Exist(alpha)));
                let r = self.check_within(body, &Type::Exist(beta), g);
                match r {
                    Some(res) => {
                        if !self.try_pop_scope(&Element::Ann(Type::Exist(alpha))) {
                            return None;
                        }
                        match res {
                            Ok(()) => Some(Ok(Type::Arrow(Box::new(Type::Exist(alpha)), Box::new(Type::Exist(beta))))),
                            Err(err) => Some(Err(err)),
                        }
                    },
                    None => None,
                }
            },
            Expr::App(e1, e2) => {
                let a = match self.infer_within(e1, g) {
                    Some(Ok(a)) => a,
                    Some(Err(err)) => return Some(Err(err)),
                    None => return None,
                };
                let a = match self.apply_within(a, g) {
                    Some(a) => a,
                    None => return None,
                };
                self.infer_app_within(&a, e2, g)
            },
        }
    }

    /// Application synthesis within `fuel` nested rule applications.
    pub fn infer_app_within(&mut self, ty: &Type, e2: &Expr, fuel: u64) -> (r: Option<Result<Type, TypeError>>)
        ensures
            answers(infer_app_run(fuel as nat, old(self)@, *ty, *e2), r, final(self)@),
        decreases fuel,
    {
        if fuel == 0 {
            return None;
        }
        let g = fuel - 1;
        match ty {
            Type::Exist(alpha) => {
                if self.next_ev() >= usize::MAX - 1 {
                    return None;
                }
                let a1 = self.fresh_ev();
                let a2 = self.fresh_ev();
                if let Err(err) = self.splice_hole(*alpha, articulate(*alpha, a1, a2)) {
                    return Some(Err(err));
                }
                match self.check_within(e2, &Type::Exist(a1), g) {
                    Some(Ok(())) => Some(Ok(Type::Exist(a2))),
                    Some(Err(err)) => Some(Err(err)),
                    None => None,
                }
            },
            Type::Arrow(a, b) => match self.check_within(e2, a, g) {
                Some(Ok(())) => Some(Ok(b.duplicate())),
                Some(Err(err)) => Some(Err(err)),
                None => None,
            },
            Type::Univ(a) => {
                if self.next_ev() == usize::MAX {
                    return None;
                }
                let alpha = self.fresh_ev();
                let a_prime = a.open_with(alpha);
                self.push(Element::Exist(alpha));
                self.infer_app_within(&a_prime, e2, g)
            },
            _ => Some(Err(TypeError::CannotApply(e2.duplicate(), ty.duplicate()))),
        }
    }

    /// Checking `e <= a` within `fuel` nested rule applications.
    pub fn check_within(&mut self, e: &Expr, a: &Type, fuel: u64) -> (r: Option<Result<(), TypeError>>)
        ensures
            answers(check_run(fuel as nat, old(self)@, *e, *a), r, final(self)@),
        decreases fuel,
    {
        if fuel == 0 {
            return None;
        }
        let g = fuel - 1;
        match (e, a) {
            (Expr::Unit, Type::Unit) => Some(Ok(())),
            (Expr::Abs(body), Type::Arrow(a1, a2)) => {
                let scope = Element::Ann(a1.duplicate());
                self.push(scope.duplicate());
                match self.check_within(body, a2, g) {
                    Some(res) => if self.try_pop_scope(&scope) {
                        Some(res)
                    } else {
                        None
                    },
                    None => None,
                }
            },
            (_, Type::Univ(ty)) => {
                self.push(Element::Var);
                match self.check_within(e, ty, g) {
                    Some(res) => if self.try_pop_scope(&Element::Var) {
                        Some(res)
                    } else {
                        None
                    },
                    None => None,
                }
            },
            _ => {
                let t = match self.infer_within(e, g) {
                    Some(Ok(t)) => t,
                    Some(Err(err)) => return Some(Err(err)),
                    None => return None,
                };
                let t = match self.apply_within(t, g) {
                    Some(t) => t,
                    None => return None,
                };
                let b = match self.apply_within(a.duplicate(), g) {
                    Some(b) => b,
                    None => return None,
                };
                self.subtype_within(&t, &b, g)
            },
        }
    }
}

} // verus!
