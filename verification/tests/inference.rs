use bidir::context::Context;
use bidir::types::{Element, Expr, Type, TypeError};

fn var(x: usize) -> Expr {
    Expr::Var(x)
}
fn app(a: Expr, b: Expr) -> Expr {
    Expr::App(Box::new(a), Box::new(b))
}
fn abs(b: Expr) -> Expr {
    Expr::Abs(Box::new(b))
}
fn ann(e: Expr, t: Type) -> Expr {
    Expr::Ann(Box::new(e), Box::new(t))
}
fn arrow(a: Type, b: Type) -> Type {
    Type::Arrow(Box::new(a), Box::new(b))
}
fn univ(a: Type) -> Type {
    Type::Univ(Box::new(a))
}
fn ex(n: usize) -> Type {
    Type::Exist(n)
}

#[test]
fn compose_is_typed() {
    // \f. \g. \x. f (g x)
    // : (e6 -> e7) -> ((e14 -> e6) -> (e14 -> e7))
    let t1 = abs(abs(abs(app(var(2), app(var(1), var(0))))));
    let mut ctx = Context::default();
    let inf = ctx.infer(&t1).unwrap();
    let ty = ctx.apply(inf);
    assert_eq!(ty, arrow(arrow(ex(6), ex(7)), arrow(arrow(ex(14), ex(6)), arrow(ex(14), ex(7)))));
}

#[test]
fn identity_infers_an_arrow_between_fresh_variables() {
    let mut ctx = Context::new();
    let ty = ctx.infer(&abs(var(0))).unwrap();
    assert_eq!(ty, arrow(ex(0), ex(1)));
    let applied = ctx.apply(ty);
    assert_eq!(applied, arrow(ex(0), ex(0)));
    assert_eq!(ctx.elements(), &vec![Element::Exist(0), Element::Solved(1, ex(0))]);
    assert_eq!(ctx.next_ev(), 2);
}

#[test]
fn polymorphic_identity_applied_to_unit() {
    let id = ann(abs(var(0)), univ(arrow(Type::Var(0), Type::Var(0))));
    let mut ctx = Context::new();
    let ty = ctx.infer(&app(id, Expr::Unit)).unwrap();
    assert_eq!(ty, ex(0));
    assert_eq!(ctx.apply(ty), Type::Unit);
    assert_eq!(ctx.elements(), &vec![Element::Solved(0, Type::Unit)]);
    assert_eq!(ctx.next_ev(), 1);
}

#[test]
fn unit_checks_against_unit() {
    let mut ctx = Context::new();
    assert_eq!(ctx.check(&Expr::Unit, &Type::Unit), Ok(()));
    assert!(ctx.elements().is_empty());
}

#[test]
fn lambda_checks_against_arrow_and_leaves_no_scope_behind() {
    let mut ctx = Context::new();
    assert_eq!(ctx.check(&abs(var(0)), &arrow(Type::Unit, Type::Unit)), Ok(()));
    assert!(ctx.elements().is_empty());
    assert_eq!(ctx.next_ev(), 0);
}

#[test]
fn check_against_forall_opens_and_closes_a_scope() {
    let mut ctx = Context::new();
    let ty = univ(arrow(Type::Var(0), Type::Var(0)));
    assert_eq!(ctx.check(&abs(var(0)), &ty), Ok(()));
    assert!(ctx.elements().is_empty());
}

#[test]
fn unbound_variable() {
    let mut ctx = Context::new();
    assert_eq!(ctx.infer(&var(0)), Err(TypeError::UnboundVar(0)));
}

#[test]
fn ill_formed_annotation() {
    let mut ctx = Context::new();
    assert_eq!(ctx.infer(&ann(Expr::Unit, Type::Var(0))), Err(TypeError::NotWellFormed(Type::Var(0))));
}

#[test]
fn unit_cannot_be_applied() {
    let mut ctx = Context::new();
    assert_eq!(
        ctx.infer(&app(Expr::Unit, Expr::Unit)),
        Err(TypeError::CannotApply(Expr::Unit, Type::Unit))
    );
}

#[test]
fn unit_is_not_a_function() {
    let mut ctx = Context::new();
    assert_eq!(
        ctx.check(&Expr::Unit, &arrow(Type::Unit, Type::Unit)),
        Err(TypeError::NotSubtype(Type::Unit, arrow(Type::Unit, Type::Unit)))
    );
}

#[test]
fn applying_an_unbound_existential() {
    let mut ctx = Context::new();
    assert_eq!(ctx.infer_app(&ex(5), &Expr::Unit), Err(TypeError::NotBound(5)));
    assert_eq!(ctx.next_ev(), 2);
    assert!(ctx.elements().is_empty());
}

#[test]
fn infer_app_through_an_arrow() {
    let mut ctx = Context::new();
    assert_eq!(ctx.infer_app(&arrow(Type::Unit, ex(9)), &Expr::Unit), Ok(ex(9)));
}

#[test]
fn infer_app_articulates_an_existential() {
    let mut ctx = Context::new();
    let a = ctx.fresh_ev();
    ctx.push(Element::Exist(a));
    assert_eq!(ctx.infer_app(&ex(a), &Expr::Unit), Ok(ex(2)));
    assert_eq!(
        ctx.elements(),
        &vec![Element::Exist(2), Element::Solved(1, Type::Unit), Element::Solved(0, arrow(ex(1), ex(2)))]
    );
}

#[test]
fn fresh_counter_never_goes_back() {
    let mut ctx = Context::new();
    let before = ctx.next_ev();
    let t1 = abs(abs(abs(app(var(2), app(var(1), var(0))))));
    let _ = ctx.infer(&t1);
    assert!(ctx.next_ev() >= before);
    let mid = ctx.next_ev();
    let _ = ctx.infer(&abs(var(0)));
    assert!(ctx.next_ev() >= mid);
}

#[test]
fn solutions_are_monotypes_and_numbers_stay_fresh() {
    let t1 = abs(abs(abs(app(var(2), app(var(1), var(0))))));
    let id = ann(abs(var(0)), univ(arrow(Type::Var(0), Type::Var(0))));
    for e in [t1, app(id, Expr::Unit)] {
        let mut ctx = Context::new();
        ctx.infer(&e).unwrap();
        let ev = ctx.next_ev();
        for el in ctx.elements() {
            match el {
                Element::Solved(n, t) => {
                    assert!(t.monotype());
                    assert!(*n < ev);
                }
                Element::Exist(n) | Element::Marker(n) => assert!(*n < ev),
                _ => {}
            }
        }
    }
}

#[test]
fn bounded_synthesis_agrees_and_reports_a_short_bound() {
    let t1 = abs(abs(abs(app(var(2), app(var(1), var(0))))));
    let mut ctx = Context::new();
    let inf = ctx.infer_within(&t1, 1000).unwrap().unwrap();
    let ty = ctx.apply_within(inf, 1000).unwrap();
    assert_eq!(ty, arrow(arrow(ex(6), ex(7)), arrow(arrow(ex(14), ex(6)), arrow(ex(14), ex(7)))));

    let mut short = Context::new();
    assert_eq!(short.infer_within(&t1, 2), None);
    let mut zero = Context::new();
    assert_eq!(zero.check_within(&Expr::Unit, &Type::Unit, 0), None);
    assert_eq!(zero.check_within(&Expr::Unit, &Type::Unit, 1), Some(Ok(())));
}

#[test]
fn bounded_errors_match() {
    let mut ctx = Context::new();
    assert_eq!(ctx.infer_within(&var(0), 5), Some(Err(TypeError::UnboundVar(0))));
    assert_eq!(ctx.infer_app_within(&ex(5), &Expr::Unit, 5), Some(Err(TypeError::NotBound(5))));
}

#[test]
fn applying_a_polymorphic_function_lowers_outer_type_variables() {
    // In context `[Var, x : v]`, a function of type `forall a. v -> a`
    // applied to `x`: opening the quantifier turns `Var(1)` into `v`.
    let mut ctx = Context::new();
    ctx.push(Element::Var);
    ctx.push(Element::Ann(Type::Var(0)));
    let f = univ(arrow(Type::Var(1), Type::Var(0)));
    assert_eq!(ctx.infer_app(&f, &var(0)), Ok(ex(0)));
    assert_eq!(ctx.elements(), &vec![Element::Var, Element::Ann(Type::Var(0)), Element::Exist(0)]);
}
