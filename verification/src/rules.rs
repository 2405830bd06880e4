//! What the individual rules of the judgments mean, stated over their
//! inputs and outcomes: how function types are compared, what an
//! annotation and a lambda are checked against, and which type variables
//! are in scope.
use vstd::prelude::*;
use crate::types::{Element, Expr, Type, TypeError};
use crate::context::{CtxState, find_tvar, pop_until, wf_type};
use crate::semantics::{Run, can_fresh, check_run, infer_app_run, infer_run, leave_scope, st_fresh, st_push, subtype_run};

verus! {

/// Function types are compared contravariantly in their domains: a run of
/// `A1 -> A2 <: B1 -> B2` succeeds only if `B1 <: A1` succeeds from the same
/// context, and where `B1 <: A1` fails, the comparison of the function types
/// fails with the same error and leaves the same context.
pub proof fn lemma_arrow_domains_contravariant(fuel: nat, st: CtxState, a1: Type, a2: Type, b1: Type, b2: Type)
    requires
        fuel > 0,
    ensures
        subtype_run(fuel, st, Type::Arrow(Box::new(a1), Box::new(a2)), Type::Arrow(Box::new(b1), Box::new(b2)))
            matches Run::Done(Ok(_), _) ==> subtype_run((fuel - 1) as nat, st, b1, a1) matches Run::Done(Ok(_), _),
        subtype_run((fuel - 1) as nat, st, b1, a1) matches Run::Done(Err(err), s) ==> subtype_run(
            fuel,
            st,
            Type::Arrow(Box::new(a1), Box::new(a2)),
            Type::Arrow(Box::new(b1), Box::new(b2)),
        ) == Run::<()>::Done(Err(err), s),
{
}

/// An annotated term `(e : A)` synthesizes exactly `A`, and only where `e`
/// checks against `A` from the same context, ending where that check ends;
/// where the check fails, synthesis fails with the same error, and an
/// annotation that is not well formed is refused before anything is
/// checked.
pub proof fn lemma_annotation_is_checked(fuel: nat, st: CtxState, e: Expr, a: Type)
    requires
        fuel > 0,
    ensures
        infer_run(fuel, st, Expr::Ann(Box::new(e), Box::new(a))) matches Run::Done(Ok(t), s) ==> t == a
            && check_run((fuel - 1) as nat, st, e, a) == Run::<()>::Done(Ok(()), s),
        wf_type(st.elems, a) ==> (check_run((fuel - 1) as nat, st, e, a) matches Run::Done(Err(err), s) ==> infer_run(
            fuel,
            st,
            Expr::Ann(Box::new(e), Box::new(a)),
        ) == Run::<Type>::Done(Err(err), s)),
        !wf_type(st.elems, a) ==> infer_run(fuel, st, Expr::Ann(Box::new(e), Box::new(a))) == Run::<Type>::Done(
            Err(TypeError::NotWellFormed(a)),
            st,
        ),
{
    let x = Expr::Ann(Box::new(e), Box::new(a));
    if wf_type(st.elems, a) {
        match check_run((fuel - 1) as nat, st, e, a) {
            Run::Done(Ok(u), s1) => {
                assert(u == ());
                assert(infer_run(fuel, st, x) == Run::<Type>::Done(Ok(a), s1));
            },
            Run::Done(Err(err), s1) => {
                assert(infer_run(fuel, st, x) == Run::<Type>::Done(Err(err), s1));
            },
            Run::Stuck => {
                assert(infer_run(fuel, st, x) == Run::<Type>::Stuck);
            },
        }
    }
}

/// A lambda checks against `A1 -> A2` exactly as its body checks against
/// the codomain `A2` with the bound variable annotated with the domain `A1`;
/// afterwards that annotation's scope is closed.
pub proof fn lemma_lambda_checks_its_body(fuel: nat, st: CtxState, body: Expr, a1: Type, a2: Type)
    requires
        fuel > 0,
    ensures
        check_run(fuel, st, Expr::Abs(Box::new(body)), Type::Arrow(Box::new(a1), Box::new(a2))) == leave_scope(
            check_run((fuel - 1) as nat, st_push(st, Element::Ann(a1)), body, a2),
            Element::Ann(a1),
        ),
{
}

/// A constant function returning `()` checks against `A -> ()` for every
/// domain `A`, in every context, and leaves the context as it was.
pub proof fn lemma_constant_function_checks(fuel: nat, st: CtxState, a: Type)
    requires
        fuel >= 2,
    ensures
        check_run(fuel, st, Expr::Abs(Box::new(Expr::Unit)), Type::Arrow(Box::new(a), Box::new(Type::Unit)))
            == Run::<()>::Done(Ok(()), st),
{
    let s1 = st_push(st, Element::Ann(a));
    assert(check_run((fuel - 1) as nat, s1, Expr::Unit, Type::Unit) == Run::<()>::Done(Ok(()), s1));
    assert(s1.elems.last() == Element::Ann(a));
    assert(s1.elems.drop_last() =~= st.elems);
    assert(pop_until(s1.elems, Element::Ann(a)) == Some(st.elems));
}

/// The number of universal variables the context binds.
pub open spec fn bound_type_vars(elems: Seq<Element>) -> nat
    decreases elems.len(),
{
    if elems.len() == 0 {
        0
    } else if elems.last() == Element::Var {
        bound_type_vars(elems.drop_last()) + 1
    } else {
        bound_type_vars(elems.drop_last())
    }
}

/// The universal variable with de Bruijn index `i` is bound exactly when
/// the context binds more than `i` universal variables.
pub proof fn lemma_type_var_bound_by_count(elems: Seq<Element>, i: nat)
    ensures
        find_tvar(elems, i) <==> i < bound_type_vars(elems),
    decreases elems.len(),
{
    if elems.len() > 0 {
        if elems.last() == Element::Var && i > 0 {
            lemma_type_var_bound_by_count(elems.drop_last(), (i - 1) as nat);
        } else {
            lemma_type_var_bound_by_count(elems.drop_last(), i);
        }
    }
}

/// A type variable is well formed exactly when the context binds more
/// universal variables than its index; under a quantifier, one more is
/// bound. So in the empty context `forall. Var(0) -> Var(1)` is not well
/// formed, and `forall. Var(0) -> Var(0)` is.
pub proof fn lemma_type_variable_well_formed(elems: Seq<Element>, i: usize)
    ensures
        wf_type(elems, Type::Var(i)) <==> i < bound_type_vars(elems),
        wf_type(elems, Type::Univ(Box::new(Type::Var(i)))) <==> i <= bound_type_vars(elems),
{
    lemma_type_var_bound_by_count(elems, i as nat);
    lemma_type_var_bound_by_count(elems.push(Element::Var), i as nat);
    assert(elems.push(Element::Var).drop_last() =~= elems);
    assert(elems.push(Element::Var).last() == Element::Var);
    assert(bound_type_vars(elems.push(Element::Var)) == bound_type_vars(elems) + 1);
    assert(wf_type(elems.push(Element::Var), Type::Var(i)) == find_tvar(elems.push(Element::Var), i as nat));
    assert(wf_type(elems, Type::Univ(Box::new(Type::Var(i)))) == wf_type(elems.push(Element::Var), Type::Var(i)));
}

/// A term variable synthesizes the annotation of its binder, counted from
/// the innermost: under a new binder `x : A`, variable 0 synthesizes `A`,
/// and variable `i + 1` synthesizes what variable `i` synthesized before;
/// synthesizing a variable leaves the context as it was.
pub proof fn lemma_variables_synthesize_their_annotation(fuel: nat, st: CtxState, a: Type, i: usize)
    requires
        fuel > 0,
        i < usize::MAX,
    ensures
        infer_run(fuel, st_push(st, Element::Ann(a)), Expr::Var(0)) == Run::<Type>::Done(
            Ok(a),
            st_push(st, Element::Ann(a)),
        ),
        infer_run(fuel, st_push(st, Element::Ann(a)), Expr::Var((i + 1) as usize)) matches Run::Done(Ok(t), s1)
            ==> s1 == st_push(st, Element::Ann(a)) && infer_run(fuel, st, Expr::Var(i)) == Run::<Type>::Done(
            Ok(t),
            st,
        ),
        infer_run(fuel, st, Expr::Var(i)) matches Run::Done(Ok(t), _) ==> infer_run(
            fuel,
            st_push(st, Element::Ann(a)),
            Expr::Var((i + 1) as usize),
        ) == Run::<Type>::Done(Ok(t), st_push(st, Element::Ann(a))),
{
    crate::laws::lemma_annotation_after_push(st.elems, a, i as nat);
}

/// Applying a function of type `A -> B` to an argument synthesizes exactly
/// `B`, and only where the argument checks against the domain `A` from the
/// same context, ending where that check ends; where the check fails,
/// application fails with the same error.
pub proof fn lemma_application_checks_the_argument(fuel: nat, st: CtxState, a: Type, b: Type, e: Expr)
    requires
        fuel > 0,
    ensures
        infer_app_run(fuel, st, Type::Arrow(Box::new(a), Box::new(b)), e) matches Run::Done(Ok(t), s) ==> t == b
            && check_run((fuel - 1) as nat, st, e, a) == Run::<()>::Done(Ok(()), s),
        check_run((fuel - 1) as nat, st, e, a) matches Run::Done(Err(err), s) ==> infer_app_run(
            fuel,
            st,
            Type::Arrow(Box::new(a), Box::new(b)),
            e,
        ) == Run::<Type>::Done(Err(err), s),
{
    let ty = Type::Arrow(Box::new(a), Box::new(b));
    match check_run((fuel - 1) as nat, st, e, a) {
        Run::Done(Ok(u), s1) => {
            assert(u == ());
            assert(infer_app_run(fuel, st, ty, e) == Run::<Type>::Done(Ok(b), s1));
        },
        Run::Done(Err(err), s1) => {
            assert(infer_app_run(fuel, st, ty, e) == Run::<Type>::Done(Err(err), s1));
        },
        Run::Stuck => {},
    }
}

/// A lambda synthesizes a function type between two fresh existential
/// variables, the first the domain and the second the codomain, and only
/// where its body checks against the codomain with the bound variable
/// annotated with the domain.
pub proof fn lemma_lambda_synthesizes_fresh_arrow(fuel: nat, st: CtxState, body: Expr)
    requires
        fuel > 0,
    ensures
        infer_run(fuel, st, Expr::Abs(Box::new(body))) matches Run::Done(Ok(t), _) ==> {
            let alpha = st.ev as usize;
            let beta = (st.ev + 1) as usize;
            &&& can_fresh(st, 2)
            &&& t == Type::Arrow(Box::new(Type::Exist(alpha)), Box::new(Type::Exist(beta)))
            &&& check_run(
                (fuel - 1) as nat,
                st_push(
                    st_push(st_push(st_fresh(st, 2), Element::Exist(alpha)), Element::Exist(beta)),
                    Element::Ann(Type::Exist(alpha)),
                ),
                body,
                Type::Exist(beta),
            ) matches Run::Done(Ok(_), _)
        },
{
}

/// Checking against `forall. A` is checking against `A` with a new
/// universal variable in scope, which is dropped afterwards.
pub proof fn lemma_check_against_forall(fuel: nat, st: CtxState, e: Expr, a: Type)
    requires
        fuel > 0,
    ensures
        check_run(fuel, st, e, Type::Univ(Box::new(a))) == leave_scope(
            check_run((fuel - 1) as nat, st_push(st, Element::Var), e, a),
            Element::Var,
        ),
{
}

/// A type without a quantifier at the top is a subtype of `forall. B`
/// exactly where it is a subtype of `B` with a new universal variable in
/// scope, which is dropped afterwards.
pub proof fn lemma_subtype_of_forall(fuel: nat, st: CtxState, a: Type, b: Type)
    requires
        fuel > 0,
        !(a is Univ),
        can_fresh(st, 1),
    ensures
        subtype_run(fuel, st, a, Type::Univ(Box::new(b))) == leave_scope(
            subtype_run((fuel - 1) as nat, st_push(st_fresh(st, 1), Element::Var), a, b),
            Element::Var,
        ),
{
}

} // verus!
