use bidir::context::Context;
use bidir::syntax::{Span, Token, TokenKind};
use bidir::types::{Element, Type, TypeError};

fn arrow(a: Type, b: Type) -> Type {
    Type::Arrow(Box::new(a), Box::new(b))
}
fn univ(a: Type) -> Type {
    Type::Univ(Box::new(a))
}
fn ex(n: usize) -> Type {
    Type::Exist(n)
}

#[test]
fn monotypes_have_no_quantifier() {
    assert!(arrow(Type::Unit, arrow(ex(1), Type::Var(0))).monotype());
    assert!(!arrow(Type::Unit, univ(Type::Var(0))).monotype());
    assert!(!univ(Type::Unit).monotype());
}

#[test]
fn freevars_in_left_to_right_order() {
    let t = arrow(ex(3), univ(arrow(ex(1), ex(3))));
    assert_eq!(t.freevars(), vec![3, 1, 3]);
    assert_eq!(Type::Var(0).freevars(), Vec::<usize>::new());
}

#[test]
fn subst_replaces_the_outermost_bound_variable() {
    let mut t = univ(arrow(Type::Var(1), Type::Var(0)));
    t.subst(&Type::Unit);
    assert_eq!(t, univ(arrow(Type::Unit, Type::Var(0))));

    let mut u = arrow(Type::Var(0), Type::Var(2));
    u.subst(&ex(7));
    assert_eq!(u, arrow(ex(7), Type::Var(2)));
}

#[test]
fn subst_shifts_the_inserted_type_under_binders() {
    let mut t = univ(Type::Var(1));
    t.subst(&Type::Var(0));
    assert_eq!(t, univ(Type::Var(1)));

    let mut u = arrow(Type::Var(0), univ(arrow(Type::Var(1), univ(Type::Var(2)))));
    u.subst(&arrow(Type::Var(3), univ(Type::Var(0))));
    assert_eq!(
        u,
        arrow(
            arrow(Type::Var(3), univ(Type::Var(0))),
            univ(arrow(arrow(Type::Var(4), univ(Type::Var(0))), univ(arrow(Type::Var(5), univ(Type::Var(0))))))
        )
    );
}

#[test]
fn substituting_monotypes_gives_a_monotype() {
    let mut t = arrow(Type::Var(0), arrow(Type::Unit, Type::Var(0)));
    t.subst(&arrow(ex(1), ex(2)));
    assert!(t.monotype());
    assert_eq!(t.freevars(), vec![1, 2, 1, 2]);
}

#[test]
fn duplicates_and_structural_equality() {
    let t = univ(arrow(ex(1), Type::Var(0)));
    assert!(t.same(&t.duplicate()));
    assert!(!t.same(&univ(arrow(ex(2), Type::Var(0)))));
    let e = Element::Solved(4, t.duplicate());
    assert!(e.same(&e.duplicate()));
    assert!(!e.same(&Element::Exist(4)));
}

#[test]
fn fresh_variables_count_up() {
    let mut ctx = Context::new();
    assert_eq!(ctx.fresh_ev(), 0);
    assert_eq!(ctx.fresh_ev(), 1);
    assert_eq!(ctx.next_ev(), 2);
    assert!(ctx.elements().is_empty());
}

#[test]
fn annotations_are_counted_from_the_innermost() {
    let mut ctx = Context::new();
    ctx.push(Element::Ann(Type::Unit));
    ctx.push(Element::Var);
    ctx.push(Element::Ann(ex(3)));
    assert_eq!(ctx.find_annotation(0), Some(&ex(3)));
    assert_eq!(ctx.find_annotation(1), Some(&Type::Unit));
    assert_eq!(ctx.find_annotation(2), None);
    ctx.push(Element::Ann(arrow(Type::Unit, Type::Unit)));
    assert_eq!(ctx.find_annotation(0), Some(&arrow(Type::Unit, Type::Unit)));
    assert_eq!(ctx.find_annotation(1), Some(&ex(3)));
}

#[test]
fn type_variables_are_counted_from_the_innermost() {
    let mut ctx = Context::new();
    assert!(!ctx.find_type_var(0));
    ctx.push(Element::Var);
    ctx.push(Element::Ann(Type::Unit));
    assert!(ctx.find_type_var(0));
    assert!(!ctx.find_type_var(1));
    ctx.push(Element::Var);
    assert!(ctx.find_type_var(1));
}

#[test]
fn solutions_are_found_from_the_bottom() {
    let mut ctx = Context::new();
    ctx.push(Element::Exist(0));
    ctx.push(Element::Solved(1, Type::Unit));
    ctx.push(Element::Solved(1, ex(0)));
    assert_eq!(ctx.find_solved(1), Some(&Type::Unit));
    assert_eq!(ctx.find_solved(0), None);
}

#[test]
fn split_and_restore() {
    let mut ctx = Context::new();
    ctx.push(Element::Var);
    ctx.push(Element::Exist(2));
    ctx.push(Element::Ann(Type::Unit));
    let rest = ctx.split_context(2).unwrap();
    assert_eq!(ctx.elements(), &vec![Element::Var]);
    assert_eq!(rest, vec![Element::Ann(Type::Unit)]);
    ctx.push(Element::Exist(2));
    ctx.extend(rest);
    assert_eq!(ctx.elements(), &vec![Element::Var, Element::Exist(2), Element::Ann(Type::Unit)]);
    assert_eq!(ctx.split_context(9), Err(TypeError::NotBound(9)));
    assert_eq!(ctx.elements().len(), 3);
}

#[test]
fn split_cuts_at_the_topmost_unsolved_variable() {
    let mut ctx = Context::new();
    ctx.push(Element::Exist(1));
    ctx.push(Element::Var);
    ctx.push(Element::Exist(1));
    let rest = ctx.split_context(1).unwrap();
    assert!(rest.is_empty());
    assert_eq!(ctx.elements(), &vec![Element::Exist(1), Element::Var]);
}

#[test]
fn splice_fills_the_hole() {
    let mut ctx = Context::new();
    ctx.push(Element::Var);
    ctx.push(Element::Exist(2));
    ctx.push(Element::Ann(Type::Unit));
    assert_eq!(ctx.splice_hole(2, vec![Element::Exist(5), Element::Exist(4)]), Ok(()));
    assert_eq!(
        ctx.elements(),
        &vec![Element::Var, Element::Exist(5), Element::Exist(4), Element::Ann(Type::Unit)]
    );
    assert_eq!(ctx.splice_hole(2, vec![]), Err(TypeError::NotBound(2)));
    assert_eq!(ctx.elements().len(), 4);
}

#[test]
fn leaving_a_scope_pops_its_growth() {
    let mut ctx = Context::new();
    ctx.push(Element::Exist(0));
    ctx.push(Element::Marker(1));
    ctx.push(Element::Exist(2));
    ctx.push(Element::Var);
    ctx.pop_scope(&Element::Marker(1));
    assert_eq!(ctx.elements(), &vec![Element::Exist(0)]);
}

#[test]
fn well_formedness_leaves_the_context_alone() {
    let mut ctx = Context::new();
    assert!(ctx.well_formed(&univ(Type::Var(0))));
    assert!(!ctx.well_formed(&Type::Var(0)));
    assert!(!ctx.well_formed(&ex(0)));
    ctx.push(Element::Exist(0));
    ctx.push(Element::Solved(1, Type::Unit));
    assert!(ctx.well_formed(&arrow(ex(0), ex(1))));
    assert!(!ctx.well_formed(&ex(2)));
    assert_eq!(ctx.elements(), &vec![Element::Exist(0), Element::Solved(1, Type::Unit)]);
    assert_eq!(ctx.check_wf(&ex(1)), Ok(true));
    assert_eq!(ctx.check_wf(&ex(2)), Err(TypeError::NotWellFormed(ex(2))));
}

#[test]
fn apply_follows_solutions() {
    let mut ctx = Context::new();
    ctx.push(Element::Solved(1, Type::Unit));
    ctx.push(Element::Solved(0, arrow(ex(1), ex(2))));
    ctx.push(Element::Exist(2));
    let t = univ(arrow(ex(0), Type::Var(0)));
    let applied = ctx.apply(t);
    assert_eq!(applied, univ(arrow(arrow(Type::Unit, ex(2)), Type::Var(0))));
    // Applying again changes nothing.
    assert_eq!(ctx.apply(applied.duplicate()), applied);
}

#[test]
fn tokens() {
    let t = Token::dummy();
    assert_eq!(t.kind, TokenKind::Dummy);
    assert_eq!(t.span, Span::zero());
    let s = Span { start: 3, end: 7 };
    let u = Token::new(TokenKind::Lowercase(String::from("x")), s);
    assert_eq!(u.kind, TokenKind::Lowercase(String::from("x")));
    assert_eq!(u.span, s);
    assert!(TokenKind::Nat(1) < TokenKind::Nat(2));
}

#[test]
fn opening_a_quantifier_body() {
    assert_eq!(arrow(Type::Var(1), Type::Var(0)).open_with(5), arrow(Type::Var(0), ex(5)));
    assert_eq!(univ(arrow(Type::Var(0), Type::Var(2))).open_with(5), univ(arrow(Type::Var(0), Type::Var(1))));
    assert_eq!(univ(Type::Var(1)).open_with(5), univ(ex(5)));
    assert_eq!(arrow(Type::Unit, ex(2)).open_with(5), arrow(Type::Unit, ex(2)));
}

#[test]
fn clones_are_equal() {
    let t = univ(arrow(Type::Var(0), ex(3)));
    assert_eq!(t.clone(), t);
    let e = Element::Solved(3, arrow(Type::Unit, Type::Unit));
    assert_eq!(e.clone(), e);
    let mut ctx = Context::new();
    let a = ctx.fresh_ev();
    ctx.push(Element::Exist(a));
    ctx.push(Element::Ann(ex(a)));
    let copy = ctx.clone();
    assert_eq!(copy, ctx);
    assert_eq!(copy.elements(), &vec![Element::Exist(0), Element::Ann(ex(0))]);
    assert_eq!(copy.next_ev(), 1);
}
