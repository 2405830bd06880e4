use bidir::context::Context;
use bidir::types::{Element, Type, TypeError};

fn arrow(a: Type, b: Type) -> Type {
    Type::Arrow(Box::new(a), Box::new(b))
}
fn univ(a: Type) -> Type {
    Type::Univ(Box::new(a))
}
fn ex(n: usize) -> Type {
    Type::Exist(n)
}

#[test]
fn subtyping_is_reflexive_on_monotypes() {
    let mut ctx = Context::new();
    let a = ctx.fresh_ev();
    ctx.push(Element::Exist(a));
    let t = arrow(arrow(Type::Unit, ex(a)), Type::Var(3));
    let before: Vec<Element> = ctx.elements().iter().map(|e| e.duplicate()).collect();
    assert_eq!(ctx.subtype(&t, &t), Ok(()));
    assert_eq!(ctx.elements(), &before);
}

#[test]
fn unit_is_not_an_arrow() {
    let mut ctx = Context::new();
    assert_eq!(
        ctx.subtype(&Type::Unit, &arrow(Type::Unit, Type::Unit)),
        Err(TypeError::NotSubtype(Type::Unit, arrow(Type::Unit, Type::Unit)))
    );
}

#[test]
fn distinct_variables_are_unrelated() {
    let mut ctx = Context::new();
    assert_eq!(ctx.subtype(&Type::Var(0), &Type::Var(1)), Err(TypeError::NotSubtype(Type::Var(0), Type::Var(1))));
}

#[test]
fn existential_is_solved_on_the_left() {
    let mut ctx = Context::new();
    let a = ctx.fresh_ev();
    ctx.push(Element::Exist(a));
    assert_eq!(ctx.subtype(&ex(a), &Type::Unit), Ok(()));
    assert_eq!(ctx.elements(), &vec![Element::Solved(a, Type::Unit)]);
}

#[test]
fn existential_is_solved_on_the_right() {
    let mut ctx = Context::new();
    let a = ctx.fresh_ev();
    ctx.push(Element::Var);
    ctx.push(Element::Exist(a));
    assert_eq!(ctx.subtype(&arrow(Type::Unit, Type::Unit), &ex(a)), Ok(()));
    assert_eq!(ctx.elements(), &vec![Element::Var, Element::Solved(a, arrow(Type::Unit, Type::Unit))]);
}

#[test]
fn occurs_check_refuses_a_cycle() {
    let mut ctx = Context::new();
    let a = ctx.fresh_ev();
    ctx.push(Element::Exist(a));
    let t = arrow(ex(a), Type::Unit);
    assert_eq!(ctx.subtype(&ex(a), &t), Err(TypeError::NotSubtype(ex(a), t)));
}

#[test]
fn later_existential_reaches_the_earlier_one() {
    let mut ctx = Context::new();
    let a = ctx.fresh_ev();
    let b = ctx.fresh_ev();
    ctx.push(Element::Exist(a));
    ctx.push(Element::Exist(b));
    assert_eq!(ctx.subtype(&ex(a), &ex(b)), Ok(()));
    assert_eq!(ctx.elements(), &vec![Element::Exist(a), Element::Solved(b, ex(a))]);
}

#[test]
fn instantiation_articulates_an_arrow() {
    let mut ctx = Context::new();
    let a = ctx.fresh_ev();
    ctx.push(Element::Exist(a));
    // The arrow mentions a variable that is not in scope, so it cannot be
    // solved directly and is articulated.
    let t = arrow(Type::Unit, Type::Var(0));
    assert_eq!(ctx.instantiateL(a, &t), Err(TypeError::CannotInstantiate(2, Type::Var(0))));
    assert_eq!(
        ctx.elements(),
        &vec![Element::Exist(2), Element::Solved(1, Type::Unit), Element::Solved(0, arrow(ex(1), ex(2)))]
    );
    assert_eq!(ctx.next_ev(), 3);
}

#[test]
fn instantiation_refuses_an_unbound_type_variable() {
    let mut ctx = Context::new();
    let a = ctx.fresh_ev();
    ctx.push(Element::Exist(a));
    assert_eq!(ctx.instantiateL(a, &Type::Var(3)), Err(TypeError::CannotInstantiate(a, Type::Var(3))));
    assert_eq!(ctx.elements(), &vec![Element::Exist(a)]);
    assert_eq!(ctx.instantiateR(&Type::Var(3), a), Err(TypeError::CannotInstantiate(a, Type::Var(3))));
}

#[test]
fn instantiating_an_undeclared_existential() {
    let mut ctx = Context::new();
    assert_eq!(ctx.instantiateL(7, &Type::Unit), Err(TypeError::NotBound(7)));
    assert_eq!(ctx.instantiateR(&Type::Unit, 7), Err(TypeError::NotBound(7)));
}

#[test]
fn forall_on_the_left_is_opened_with_a_fresh_existential() {
    // `forall a. a -> a <: () -> ()`: `a` is opened as a fresh existential,
    // solved to `()` inside the scope, and the scope is dropped afterwards.
    let mut ctx = Context::new();
    let poly = univ(arrow(Type::Var(0), Type::Var(0)));
    let mono = arrow(Type::Unit, Type::Unit);
    assert_eq!(ctx.subtype(&poly, &mono), Ok(()));
    assert!(ctx.elements().is_empty());
    assert_eq!(ctx.next_ev(), 1);
}

#[test]
fn forall_on_the_left_still_refuses_a_mismatch() {
    let mut ctx = Context::new();
    let poly = univ(arrow(Type::Var(0), Type::Var(0)));
    let t = arrow(Type::Unit, arrow(Type::Unit, Type::Unit));
    assert_eq!(
        ctx.subtype(&poly, &t),
        Err(TypeError::NotSubtype(Type::Unit, arrow(Type::Unit, Type::Unit)))
    );
    assert!(ctx.elements().is_empty());
}

#[test]
fn forall_on_the_right_binds_a_type_variable() {
    let mut ctx = Context::new();
    assert_eq!(ctx.subtype(&Type::Unit, &univ(Type::Unit)), Ok(()));
    assert!(ctx.elements().is_empty());
    assert_eq!(ctx.next_ev(), 1);
}

#[test]
fn instantiating_through_a_polytype_on_the_right() {
    // Articulating `a` meets `forall b. b -> b` on the right of an
    // instantiation: it is opened with a fresh existential in its own scope.
    let mut ctx = Context::new();
    let a = ctx.fresh_ev();
    ctx.push(Element::Exist(a));
    let t = arrow(univ(arrow(Type::Var(0), Type::Var(0))), Type::Unit);
    assert_eq!(ctx.subtype_within(&ex(a), &t, 1000), Some(Ok(())));
    assert_eq!(ctx.next_ev(), 6);
    assert_eq!(ctx.apply(ex(a)), arrow(arrow(ex(5), ex(5)), Type::Unit));
    assert!(!ctx.elements().iter().any(|e| matches!(e, Element::Marker(_))));
}

#[test]
fn instantiate_left_to_a_polytype() {
    // InstLAllR: `a <: forall. ()` solves `a` under a new universal
    // variable, which is dropped again.
    let mut ctx = Context::new();
    let a = ctx.fresh_ev();
    ctx.push(Element::Exist(a));
    assert_eq!(ctx.instantiateL(a, &univ(Type::Unit)), Ok(()));
    assert_eq!(ctx.elements(), &vec![Element::Solved(0, Type::Unit)]);
    assert_eq!(ctx.next_ev(), 1);
}

#[test]
fn instantiate_left_to_a_polytype_cannot_use_its_variable() {
    // `a <: forall b. b`: `b` is declared after `a`, so `a` cannot be
    // solved to it.
    let mut ctx = Context::new();
    let a = ctx.fresh_ev();
    ctx.push(Element::Exist(a));
    assert_eq!(ctx.instantiateL(a, &univ(Type::Var(0))), Err(TypeError::CannotInstantiate(a, Type::Var(0))));
    assert_eq!(ctx.elements(), &vec![Element::Exist(a)]);
}

#[test]
fn instantiate_right_from_a_polytype() {
    // InstRAllL: `forall. () <: a` opens the quantifier with a fresh
    // existential inside a marked scope and solves `a` to `()`.
    let mut ctx = Context::new();
    let a = ctx.fresh_ev();
    ctx.push(Element::Exist(a));
    assert_eq!(ctx.instantiateR(&univ(Type::Unit), a), Ok(()));
    assert_eq!(ctx.elements(), &vec![Element::Solved(0, Type::Unit)]);
    assert_eq!(ctx.next_ev(), 2);

    // `forall b. b <: a`: the fresh variable is solved to `a`, and dropped
    // with its scope; `a` stays unsolved.
    let mut other = Context::new();
    let a = other.fresh_ev();
    other.push(Element::Exist(a));
    assert_eq!(other.instantiateR(&univ(Type::Var(0)), a), Ok(()));
    assert_eq!(other.elements(), &vec![Element::Exist(a)]);
    assert_eq!(other.next_ev(), 2);
}

#[test]
fn bounded_instantiation_to_polytypes_agrees() {
    let mut ctx = Context::new();
    let a = ctx.fresh_ev();
    ctx.push(Element::Exist(a));
    assert_eq!(ctx.instantiateL_within(a, &univ(Type::Unit), 10), Some(Ok(())));
    assert_eq!(ctx.elements(), &vec![Element::Solved(0, Type::Unit)]);
    let mut other = Context::new();
    let b = other.fresh_ev();
    other.push(Element::Exist(b));
    assert_eq!(other.instantiateR_within(&univ(Type::Unit), b, 10), Some(Ok(())));
    assert_eq!(other.elements(), &vec![Element::Solved(0, Type::Unit)]);
    assert_eq!(other.instantiateR_within(&univ(Type::Unit), b, 0), None);
}

#[test]
fn opening_a_quantifier_lowers_outer_type_variables() {
    // In context `[Var]`, `forall a. v -> a <: v -> ()`, where `v` is the
    // outer universal variable: `Var(1)` in the body, `Var(0)` outside.
    let mut ctx = Context::new();
    ctx.push(Element::Var);
    let poly = univ(arrow(Type::Var(1), Type::Var(0)));
    let mono = arrow(Type::Var(0), Type::Unit);
    assert_eq!(ctx.subtype(&poly, &mono), Ok(()));
    assert_eq!(ctx.elements(), &vec![Element::Var]);
    assert_eq!(ctx.next_ev(), 1);
}

#[test]
fn bounded_subtyping_agrees() {
    let mut ctx = Context::new();
    let poly = univ(arrow(Type::Var(0), Type::Var(0)));
    let mono = arrow(Type::Unit, Type::Unit);
    assert_eq!(ctx.subtype_within(&poly, &mono, 100), Some(Ok(())));
    assert!(ctx.elements().is_empty());
    let mut other = Context::new();
    let b = other.fresh_ev();
    other.push(Element::Exist(b));
    assert_eq!(other.instantiateR_within(&Type::Unit, b, 10), Some(Ok(())));
    assert_eq!(other.instantiateL_within(9, &Type::Unit, 10), Some(Err(TypeError::NotBound(9))));
    assert_eq!(other.apply_within(ex(b), 0), None);
    assert_eq!(other.apply_within(ex(b), 1), Some(Type::Unit));
}
