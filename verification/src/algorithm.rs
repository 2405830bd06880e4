//! The bidirectional typing algorithm: subtyping, instantiation, synthesis,
//! application synthesis and checking, run against a mutable context.
use vstd::prelude::*;
use crate::types::{Element, Expr, Type, TypeError};
use crate::context::Context;
use crate::semantics::{
    Run, subtype_run, inst_l_run, inst_r_run, infer_run, infer_app_run, check_run, subtype_finishes,
    inst_l_finishes, inst_r_finishes, infer_finishes, infer_app_finishes, check_finishes,
    lemma_subtype_mono, lemma_inst_l_mono, lemma_inst_r_mono, lemma_infer_mono, lemma_infer_app_mono,
    lemma_check_mono,
};

verus! {

/// Whether `x` occurs in `v`.
pub(crate) fn occurs(v: &Vec<usize>, x: usize) -> (r: bool)
    ensures
        r == v@.contains(x),
{
    let mut i: usize = 0;
    while i < v.len()
        invariant
            i <= v@.len(),
            forall|k: int| 0 <= k < i ==> v@[k] != x,
        decreases v@.len() - i,
    {
        if v[i] == x {
            return true;
        }
        i += 1;
    }
    false
}

/// The element list that articulates `alpha` into `a1 -> a2`.
pub(crate) fn articulate(alpha: usize, a1: usize, a2: usize) -> (r: Vec<Element>)
    ensures
        r@ == crate::semantics::articulation(alpha, a1, a2),
{
    let mut v: Vec<Element> = Vec::new();
    v.push(Element::Exist(a2));
    v.push(Element::Exist(a1));
    v.push(Element::Solved(alpha, Type::Arrow(Box::new(Type::Exist(a1)), Box::new(Type::Exist(a2)))));
    assert(v@ =~= crate::semantics::articulation(alpha, a1, a2));
    v
}

impl Context {
    fn subtype_with(&mut self, a: &Type, b: &Type, Ghost(fuel): Ghost<nat>) -> (r: Result<(), TypeError>)
        requires
            subtype_run(fuel, old(self)@, *a, *b) is Done,
        ensures
            subtype_run(fuel, old(self)@, *a, *b) == Run::Done(r, final(self)@),
        decreases fuel,
    {
        let ghost g = (fuel - 1) as nat;
        match (a, b) {
            // Rule <: Unit
            (Type::Unit, Type::Unit) => Ok(()),
            // Rule <: Var
            (Type::Var(x), Type::Var(y)) if *x == *y => Ok(()),
            // Rule <: Exvar
            (Type::Exist(x), Type::Exist(y)) if *x == *y => Ok(()),
            // Rule <: ->
            (Type::Arrow(a1, a2), Type::Arrow(b1, b2)) => {
                self.subtype_with(b1, a1, Ghost(g))?;
                let x = self.apply_with(a2.duplicate(), Ghost(g));
                let y = self.apply_with(b2.duplicate(), Ghost(g));
                self.subtype_with(&x, &y, Ghost(g))
            },
            // Rule <: forall. L: the body is opened with a fresh existential,
            // declared inside a scope marked by the same number
            (Type::Univ(body), _) => {
                let alpha = self.fresh_ev();
                let a_ = body.open_with(alpha);
                self.push(Element::Marker(alpha));
                self.push(Element::Exist(alpha));
                let r = self.subtype_with(&a_, b, Ghost(g));
                self.pop_scope(&Element::Marker(alpha));
                r
            },
            // Rule <: forall. R: a fresh number is drawn, though only a
            // universal variable is bound
            (_, Type::Univ(body)) => {
                let _alpha = self.fresh_ev();
                self.push(Element::Var);
                let r = self.subtype_with(a, body, Ghost(g));
                self.pop_scope(&Element::Var);
                r
            },
            _ => {
                // Rule <: InstantiateL
                if let Type::Exist(alpha) = a {
                    if !occurs(&b.freevars(), *alpha) {
                        return self.instantiateL_with(*alpha, b, Ghost(g));
                    }
                }
                // Rule <: InstantiateR
                if let Type::Exist(alpha) = b {
                    if !occurs(&a.freevars(), *alpha) {
                        return self.instantiateR_with(a, *alpha, Ghost(g));
                    }
                }
                Err(TypeError::NotSubtype(a.duplicate(), b.duplicate()))
            },
        }
    }

    fn instantiateL_with(&mut self, alpha: usize, a: &Type, Ghost(fuel): Ghost<nat>) -> (r: Result<(), TypeError>)
        requires
            inst_l_run(fuel, old(self)@, alpha, *a) is Done,
        ensures
            inst_l_run(fuel, old(self)@, alpha, *a) == Run::Done(r, final(self)@),
        decreases fuel,
    {
        let ghost g = (fuel - 1) as nat;
        let ghost st = self@;
        let r = self.split_context(alpha)?;
        // InstLSolve
        if a.monotype() && self.well_formed(a) {
            self.push(Element::Solved(alpha, a.duplicate()));
            self.extend(r);
            return Ok(());
        } else {
            self.push(Element::Exist(alpha));
            self.extend(r);
        }
        proof {
            crate::context::lemma_last_exist_bounds(st.elems, alpha);
            let idx = crate::context::last_exist(st.elems, alpha).unwrap();
            assert(st.elems.subrange(0, idx).push(Element::Exist(alpha)) + st.elems.subrange(idx + 1, st.elems.len() as int) =~= st.elems);
        }
        assert(self@ == st);
        match a {
            // InstLArr
            Type::Arrow(t1, t2) => {
                let a1 = self.fresh_ev();
                let a2 = self.fresh_ev();
                self.splice_hole(alpha, articulate(alpha, a1, a2))?;
                self.instantiateR_with(t1, a1, Ghost(g))?;
                let t2a = self.apply_with(t2.duplicate(), Ghost(g));
                self.instantiateL_with(a2, &t2a, Ghost(g))
            },
            // InstLAllR: the bound variable becomes a universal variable
            // declared after `alpha`, in its own scope
            Type::Univ(body) => {
                self.push(Element::Var);
                let r = self.instantiateL_with(alpha, body, Ghost(g));
                self.pop_scope(&Element::Var);
                r
            },
            // InstLReach
            Type::Exist(beta) => {
                let mut v: Vec<Element> = Vec::new();
                v.push(Element::Solved(*beta, Type::Exist(alpha)));
                assert(v@ =~= seq![Element::Solved(*beta, Type::Exist(alpha))]);
                self.splice_hole(*beta, v)
            },
            _ => Err(TypeError::CannotInstantiate(alpha, a.duplicate())),
        }
    }

    fn instantiateR_with(&mut self, a: &Type, alpha: usize, Ghost(fuel): Ghost<nat>) -> (r: Result<(), TypeError>)
        requires
            inst_r_run(fuel, old(self)@, *a, alpha) is Done,
        ensures
            inst_r_run(fuel, old(self)@, *a, alpha) == Run::Done(r, final(self)@),
        decreases fuel,
    {
        let ghost g = (fuel - 1) as nat;
        let ghost st = self@;
        let r = self.split_context(alpha)?;
        // InstRSolve
        if a.monotype() && self.well_formed(a) {
            self.push(Element::Solved(alpha, a.duplicate()));
            self.extend(r);
            return Ok(());
        } else {
            self.push(Element::Exist(alpha));
            self.extend(r);
        }
        proof {
            crate::context::lemma_last_exist_bounds(st.elems, alpha);
            let idx = crate::context::last_exist(st.elems, alpha).unwrap();
            assert(st.elems.subrange(0, idx).push(Element::Exist(alpha)) + st.elems.subrange(idx + 1, st.elems.len() as int) =~= st.elems);
        }
        assert(self@ == st);
        match a {
            // InstRArr
            Type::Arrow(t1, t2) => {
                let a1 = self.fresh_ev();
                let a2 = self.fresh_ev();
                self.splice_hole(alpha, articulate(alpha, a1, a2))?;
                self.instantiateL_with(a1, t1, Ghost(g))?;
                let t2a = self.apply_with(t2.duplicate(), Ghost(g));
                self.instantiateR_with(&t2a, a2, Ghost(g))
            },
            // InstRAllL: the body is opened with a fresh existential variable,
            // declared inside a scope marked by the same number
            Type::Univ(body) => {
                let beta = self.fresh_ev();
                let b_ = body.open_with(beta);
                self.push(Element::Marker(beta));
                self.push(Element::Exist(beta));
                let r = self.instantiateR_with(&b_, alpha, Ghost(g));
                self.pop_scope(&Element::Marker(beta));
                r
            },
            // InstRReach
            Type::Exist(beta) => {
                let mut v: Vec<Element> = Vec::new();
                v.push(Element::Solved(*beta, Type::Exist(alpha)));
                assert(v@ =~= seq![Element::Solved(*beta, Type::Exist(alpha))]);
                self.splice_hole(*beta, v)
            },
            _ => Err(TypeError::CannotInstantiate(alpha, a.duplicate())),
        }
    }

    fn infer_with(&mut self, e: &Expr, Ghost(fuel): Ghost<nat>) -> (r: Result<Type, TypeError>)
        requires
            infer_run(fuel, old(self)@, *e) is Done,
        ensures
            infer_run(fuel, old(self)@, *e) == Run::Done(r, final(self)@),
        decreases fuel,
    {
        let ghost g = (fuel - 1) as nat;
        match e {
            // Rule 1l=>
            Expr::Unit => Ok(Type::Unit),
            // Rule Anno
            Expr::Ann(x, ty) => {
                self.check_wf(ty)?;
                self.check_with(x, ty, Ghost(g))?;
                Ok(ty.duplicate())
            },
            // Rule Var
            Expr::Var(x) => match self.find_annotation(*x) {
                Some(t) => Ok(t.duplicate()),
                None => Err(TypeError::UnboundVar(*x)),
            },
            // Rule ->I =>
            Expr::Abs(body) => {
                let alpha = self.fresh_ev();
                let beta = self.fresh_ev();
                // Fresh existential var for function domain
                self.push(Element::Exist(alpha));
                // And for codomain
                self.push(Element::Exist(beta));
                // Check the function body against Beta
                self.push(Element::Ann(Type::Exist(alpha)));
                let r = self.check_with(body, &Type::Exist(beta), Ghost(g));
                self.pop_scope(&Element::Ann(Type::Exist(alpha)));
                r?;
                // alpha and beta stay on the stack, since they appear in the output type
                Ok(Type::Arrow(Box::new(Type::Exist(alpha)), Box::new(Type::Exist(beta))))
            },
            // Rule ->E
            Expr::App(e1, e2) => {
                let a = self.infer_with(e1, Ghost(g))?;
                let a = self.apply_with(a, Ghost(g));
                self.infer_app_with(&a, e2, Ghost(g))
            },
        }
    }

    fn infer_app_with(&mut self, ty: &Type, e2: &Expr, Ghost(fuel): Ghost<nat>) -> (r: Result<Type, TypeError>)
        requires
            infer_app_run(fuel, old(self)@, *ty, *e2) is Done,
        ensures
            infer_app_run(fuel, old(self)@, *ty, *e2) == Run::Done(r, final(self)@),
        decreases fuel,
    {
        let ghost g = (fuel - 1) as nat;
        match ty {
            // Rule alpha_hat App
            Type::Exist(alpha) => {
                let a1 = self.fresh_ev();
                let a2 = self.fresh_ev();
                self.splice_hole(*alpha, articulate(*alpha, a1, a2))?;
                self.check_with(e2, &Type::Exist(a1), Ghost(g))?;
                Ok(Type::Exist(a2))
            },
            // Rule ->App
            Type::Arrow(a, b) => {
                self.check_with(e2, a, Ghost(g))?;
                Ok(b.duplicate())
            },
            // Rule forall. App
            Type::Univ(a) => {
                let alpha = self.fresh_ev();
                let a_prime = a.open_with(alpha);
                self.push(Element::Exist(alpha));
                self.infer_app_with(&a_prime, e2, Ghost(g))
            },
            _ => Err(TypeError::CannotApply(e2.duplicate(), ty.duplicate())),
        }
    }

    fn check_with(&mut self, e: &Expr, a: &Type, Ghost(fuel): Ghost<nat>) -> (r: Result<(), TypeError>)
        requires
            check_run(fuel, old(self)@, *e, *a) is Done,
        ensures
            check_run(fuel, old(self)@, *e, *a) == Run::Done(r, final(self)@),
        decreases fuel,
    {
        let ghost g = (fuel - 1) as nat;
        match (e, a) {
            // Rule 1l
            (Expr::Unit, Type::Unit) => Ok(()),
            // Rule ->I
            (Expr::Abs(body), Type::Arrow(a1, a2)) => {
                let scope = Element::Ann(a1.duplicate());
                self.push(scope.duplicate());
                let r = self.check_with(body, a2, Ghost(g));
                self.pop_scope(&scope);
                r
            },
            // Rule forall. I
            (_, Type::Univ(ty)) => {
                self.push(Element::Var);
                let r = self.check_with(e, ty, Ghost(g));
                self.pop_scope(&Element::Var);
                r
            },
            // Rule Sub
            _ => {
                let t = self.infer_with(e, Ghost(g))?;
                let t = self.apply_with(t, Ghost(g));
                let b = self.apply_with(a.duplicate(), Ghost(g));
                self.subtype_with(&t, &b, Ghost(g))?;
                Ok(())
            },
        }
    }
}


impl Context {
    /// Algorithmic subtyping `a <: b`: on success the context records the
    /// solutions it found for existential variables.
    pub fn subtype(&mut self, a: &Type, b: &Type) -> (r: Result<(), TypeError>)
        requires
            subtype_finishes(old(self)@, *a, *b),
        ensures
            forall|fuel: nat| #[trigger] subtype_run(fuel, old(self)@, *a, *b) is Done
                ==> subtype_run(fuel, old(self)@, *a, *b) == Run::Done(r, final(self)@),
    {
        let ghost st = self@;
        let ghost fuel = choose|fuel: nat| #[trigger] subtype_run(fuel, st, *a, *b) is Done;
        let r = self.subtype_with(a, b, Ghost(fuel));
        proof {
            assert forall|g: nat| #[trigger] subtype_run(g, st, *a, *b) is Done implies subtype_run(g, st, *a, *b)
                == subtype_run(fuel, st, *a, *b) by {
                if g <= fuel {
                    lemma_subtype_mono(g, fuel, st, *a, *b);
                } else {
                    lemma_subtype_mono(fuel, g, st, *a, *b);
                }
            }
        }
        r
    }

    /// Instantiates the existential variable `alpha` so that `alpha <: a`.
    pub fn instantiateL(&mut self, alpha: usize, a: &Type) -> (r: Result<(), TypeError>)
        requires
            inst_l_finishes(old(self)@, alpha, *a),
        ensures
            forall|fuel: nat| #[trigger] inst_l_run(fuel, old(self)@, alpha, *a) is Done
                ==> inst_l_run(fuel, old(self)@, alpha, *a) == Run::Done(r, final(self)@),
    {
        let ghost st = self@;
        let ghost fuel = choose|fuel: nat| #[trigger] inst_l_run(fuel, st, alpha, *a) is Done;
        let r = self.instantiateL_with(alpha, a, Ghost(fuel));
        proof {
            assert forall|g: nat| #[trigger] inst_l_run(g, st, alpha, *a) is Done implies inst_l_run(g, st, alpha, *a)
                == inst_l_run(fuel, st, alpha, *a) by {
                if g <= fuel {
                    lemma_inst_l_mono(g, fuel, st, alpha, *a);
                } else {
                    lemma_inst_l_mono(fuel, g, st, alpha, *a);
                }
            }
        }
        r
    }

    /// Instantiates the existential variable `alpha` so that `a <: alpha`.
    pub fn instantiateR(&mut self, a: &Type, alpha: usize) -> (r: Result<(), TypeError>)
        requires
            inst_r_finishes(old(self)@, *a, alpha),
        ensures
            forall|fuel: nat| #[trigger] inst_r_run(fuel, old(self)@, *a, alpha) is Done
                ==> inst_r_run(fuel, old(self)@, *a, alpha) == Run::Done(r, final(self)@),
    {
        let ghost st = self@;
        let ghost fuel = choose|fuel: nat| #[trigger] inst_r_run(fuel, st, *a, alpha) is Done;
        let r = self.instantiateR_with(a, alpha, Ghost(fuel));
        proof {
            assert forall|g: nat| #[trigger] inst_r_run(g, st, *a, alpha) is Done implies inst_r_run(g, st, *a, alpha)
                == inst_r_run(fuel, st, *a, alpha) by {
                if g <= fuel {
                    lemma_inst_r_mono(g, fuel, st, *a, alpha);
                } else {
                    lemma_inst_r_mono(fuel, g, st, *a, alpha);
                }
            }
        }
        r
    }

    /// Synthesizes a type for `e`.
    pub fn infer(&mut self, e: &Expr) -> (r: Result<Type, TypeError>)
        requires
            infer_finishes(old(self)@, *e),
        ensures
            forall|fuel: nat| #[trigger] infer_run(fuel, old(self)@, *e) is Done
                ==> infer_run(fuel, old(self)@, *e) == Run::Done(r, final(self)@),
    {
        let ghost st = self@;
        let ghost fuel = choose|fuel: nat| #[trigger] infer_run(fuel, st, *e) is Done;
        let r = self.infer_with(e, Ghost(fuel));
        proof {
            assert forall|g: nat| #[trigger] infer_run(g, st, *e) is Done implies infer_run(g, st, *e)
                == infer_run(fuel, st, *e) by {
                if g <= fuel {
                    lemma_infer_mono(g, fuel, st, *e);
                } else {
                    lemma_infer_mono(fuel, g, st, *e);
                }
            }
        }
        r
    }

    /// Synthesizes the type of applying a function of type `ty` to `e2`.
    pub fn infer_app(&mut self, ty: &Type, e2: &Expr) -> (r: Result<Type, TypeError>)
        requires
            infer_app_finishes(old(self)@, *ty, *e2),
        ensures
            forall|fuel: nat| #[trigger] infer_app_run(fuel, old(self)@, *ty, *e2) is Done
                ==> infer_app_run(fuel, old(self)@, *ty, *e2) == Run::Done(r, final(self)@),
    {
        let ghost st = self@;
        let ghost fuel = choose|fuel: nat| #[trigger] infer_app_run(fuel, st, *ty, *e2) is Done;
        let r = self.infer_app_with(ty, e2, Ghost(fuel));
        proof {
            assert forall|g: nat| #[trigger] infer_app_run(g, st, *ty, *e2) is Done implies infer_app_run(g, st, *ty, *e2)
                == infer_app_run(fuel, st, *ty, *e2) by {
                if g <= fuel {
                    lemma_infer_app_mono(g, fuel, st, *ty, *e2);
                } else {
                    lemma_infer_app_mono(fuel, g, st, *ty, *e2);
                }
            }
        }
        r
    }

    /// Checks `e` against the type `a`.
    pub fn check(&mut self, e: &Expr, a: &Type) -> (r: Result<(), TypeError>)
        requires
            check_finishes(old(self)@, *e, *a),
        ensures
            forall|fuel: nat| #[trigger] check_run(fuel, old(self)@, *e, *a) is Done
                ==> check_run(fuel, old(self)@, *e, *a) == Run::Done(r, final(self)@),
    {
        let ghost st = self@;
        let ghost fuel = choose|fuel: nat| #[trigger] check_run(fuel, st, *e, *a) is Done;
        let r = self.check_with(e, a, Ghost(fuel));
        proof {
            assert forall|g: nat| #[trigger] check_run(g, st, *e, *a) is Done implies check_run(g, st, *e, *a)
                == check_run(fuel, st, *e, *a) by {
                if g <= fuel {
                    lemma_check_mono(g, fuel, st, *e, *a);
                } else {
                    lemma_check_mono(fuel, g, st, *e, *a);
                }
            }
        }
        r
    }
}

} // verus!
