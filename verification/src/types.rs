//! Source-level types, expressions and context elements, with their
//! structural operations: the monotype test, free existential variables,
//! substitution, structural copies and structural equality.
use vstd::prelude::*;

verus! {

/// A source-level type
#[derive(Debug, PartialEq)]
pub enum Type {
    Unit,
    /// A universally bound type variable, as a de Bruijn index
    Var(usize),
    Arrow(Box<Type>, Box<Type>),
    /// An existential type variable
    Exist(usize),
    /// Universal quantification; the bound variable is `Var(0)` in the body
    Univ(Box<Type>),
}

/// An expression in our simply typed lambda calculus
#[derive(Debug, PartialEq)]
pub enum Expr {
    /// The unit expression, ()
    Unit,
    /// A term variable, given in de Bruijn notation
    Var(usize),
    /// A lambda abstraction, with its body. (\x. body)
    Abs(Box<Expr>),
    /// Application (e1 e2)
    App(Box<Expr>, Box<Expr>),
    /// Explicit type annotation of a term, (x : A)
    Ann(Box<Expr>, Box<Type>),
}

/// An element in the typing context
#[derive(Debug, PartialEq)]
pub enum Element {
    /// Universal type variable
    Var,
    /// Term variable typing x : A. Variables are de Bruijn indices, so the
    /// annotation belongs to the innermost binding still on the stack.
    Ann(Type),
    /// Unsolved existential type variable
    Exist(usize),
    /// Existential type variable that has been solved to some monotype
    Solved(usize, Type),
    /// Scope marker
    Marker(usize),
}

/// A type is a monotype when no universal quantifier occurs in it.
pub open spec fn is_monotype(t: Type) -> bool
    decreases t,
{
    match t {
        Type::Univ(_) => false,
        Type::Arrow(a, b) => is_monotype(*a) && is_monotype(*b),
        _ => true,
    }
}

/// The existential variables of a type, in left-to-right order, with
/// repetitions.
pub open spec fn free_exists(t: Type) -> Seq<usize>
    decreases t,
{
    match t {
        Type::Unit | Type::Var(_) => Seq::empty(),
        Type::Exist(v) => seq![v],
        Type::Arrow(a, b) => free_exists(*a) + free_exists(*b),
        Type::Univ(a) => free_exists(*a),
    }
}

/// `s` with every type variable free at binder depth `cutoff` (index at
/// least `cutoff`) raised by `d`, as when `s` is moved under `d` binders.
pub open spec fn shift_above(s: Type, d: int, cutoff: int) -> Type
    decreases s,
{
    match s {
        Type::Var(k) => if k >= cutoff { Type::Var((k + d) as usize) } else { s },
        Type::Arrow(a, b) => Type::Arrow(Box::new(shift_above(*a, d, cutoff)), Box::new(shift_above(*b, d, cutoff))),
        Type::Univ(a) => Type::Univ(Box::new(shift_above(*a, d, cutoff + 1))),
        _ => s,
    }
}

/// Raising the free type variables of `s` by `d` stays within `usize`.
pub open spec fn shift_fits(s: Type, d: int, cutoff: int) -> bool
    decreases s,
{
    match s {
        Type::Var(k) => k < cutoff || k + d <= usize::MAX,
        Type::Arrow(a, b) => shift_fits(*a, d, cutoff) && shift_fits(*b, d, cutoff),
        Type::Univ(a) => shift_fits(*a, d, cutoff + 1),
        _ => true,
    }
}

/// `t` with every occurrence of the type variable bound `c` binders out
/// (`Var(c)` at the top, `Var(c + 1)` under one quantifier, ...) replaced by
/// `s`, whose free type variables are shifted past the binders crossed, so
/// that none of them is captured.
pub open spec fn subst_at(t: Type, c: int, s: Type) -> Type
    decreases t,
{
    match t {
        Type::Var(n) => if n == c { shift_above(s, c, 0) } else { t },
        Type::Arrow(a, b) => Type::Arrow(Box::new(subst_at(*a, c, s)), Box::new(subst_at(*b, c, s))),
        Type::Univ(a) => Type::Univ(Box::new(subst_at(*a, c + 1, s))),
        _ => t,
    }
}

/// Opening a quantifier: `t` is the body of a quantifier, seen `c` binders
/// further in. The variable that quantifier binds (`Var(c)` here) becomes
/// `Exist(alpha)`, and every variable bound further out loses one from its
/// index, since that quantifier is gone: the top-level substitution of
/// TAPL, shifting down after substituting, for a type with no type
/// variables.
pub open spec fn open_at(t: Type, c: int, alpha: usize) -> Type
    decreases t,
{
    match t {
        Type::Var(n) => if n == c {
            Type::Exist(alpha)
        } else if n > c {
            Type::Var((n - 1) as usize)
        } else {
            t
        },
        Type::Arrow(a, b) => Type::Arrow(Box::new(open_at(*a, c, alpha)), Box::new(open_at(*b, c, alpha))),
        Type::Univ(a) => Type::Univ(Box::new(open_at(*a, c + 1, alpha))),
        _ => t,
    }
}

/// Every shift performed by `subst_at(t, c, s)` stays within `usize`.
pub open spec fn subst_fits(t: Type, c: int, s: Type) -> bool
    decreases t,
{
    match t {
        Type::Var(n) => n == c ==> shift_fits(s, c, 0),
        Type::Arrow(a, b) => subst_fits(*a, c, s) && subst_fits(*b, c, s),
        Type::Univ(a) => subst_fits(*a, c + 1, s),
        _ => true,
    }
}

/// Substitution at a binder depth that no variable index can reach leaves
/// the type unchanged.
pub proof fn lemma_subst_unreachable(t: Type, c: int, s: Type)
    requires
        c > usize::MAX,
    ensures
        subst_at(t, c, s) == t,
    decreases t,
{
    match t {
        Type::Arrow(a, b) => {
            lemma_subst_unreachable(*a, c, s);
            lemma_subst_unreachable(*b, c, s);
        },
        Type::Univ(a) => {
            lemma_subst_unreachable(*a, c + 1, s);
        },
        _ => {},
    }
}

/// Shifting above a cutoff that no variable index reaches leaves the type
/// unchanged.
pub proof fn lemma_shift_unreachable(s: Type, d: int, cutoff: int)
    requires
        cutoff > usize::MAX,
    ensures
        shift_above(s, d, cutoff) == s,
    decreases s,
{
    match s {
        Type::Arrow(a, b) => {
            lemma_shift_unreachable(*a, d, cutoff);
            lemma_shift_unreachable(*b, d, cutoff);
        },
        Type::Univ(a) => {
            lemma_shift_unreachable(*a, d, cutoff + 1);
        },
        _ => {},
    }
}

/// A type with no type variable shifts without overflow and is unchanged by
/// shifting; substituting it never overflows.
pub proof fn lemma_subst_fits_exist(t: Type, c: int, alpha: usize)
    ensures
        subst_fits(t, c, Type::Exist(alpha)),
        shift_above(Type::Exist(alpha), c, 0) == Type::Exist(alpha),
    decreases t,
{
    match t {
        Type::Arrow(a, b) => {
            lemma_subst_fits_exist(*a, c, alpha);
            lemma_subst_fits_exist(*b, c, alpha);
        },
        Type::Univ(a) => {
            lemma_subst_fits_exist(*a, c + 1, alpha);
        },
        _ => {},
    }
}

/// Opening at a binder depth that no variable index can reach leaves the
/// type unchanged.
pub proof fn lemma_open_unreachable(t: Type, c: int, alpha: usize)
    requires
        c > usize::MAX,
    ensures
        open_at(t, c, alpha) == t,
    decreases t,
{
    match t {
        Type::Arrow(a, b) => {
            lemma_open_unreachable(*a, c, alpha);
            lemma_open_unreachable(*b, c, alpha);
        },
        Type::Univ(a) => {
            lemma_open_unreachable(*a, c + 1, alpha);
        },
        _ => {},
    }
}

/// Appends the free existential variables of `t` to `out`.
fn collect_exists(t: &Type, out: &mut Vec<usize>)
    ensures
        final(out)@ == old(out)@ + free_exists(*t),
    decreases t,
{
    match t {
        Type::Unit | Type::Var(_) => {
            assert(old(out)@ + free_exists(*t) =~= old(out)@);
        },
        Type::Exist(v) => {
            out.push(*v);
        },
        Type::Arrow(a, b) => {
            collect_exists(a, out);
            collect_exists(b, out);
            assert(old(out)@ + free_exists(*t) =~= old(out)@ + free_exists(**a) + free_exists(**b));
        },
        Type::Univ(a) => {
            collect_exists(a, out);
        },
    }
}

fn shift_walk(s: &Type, d: usize, cutoff: usize) -> (r: Type)
    requires
        shift_fits(*s, d as int, cutoff as int),
    ensures
        r == shift_above(*s, d as int, cutoff as int),
    decreases s,
{
    match s {
        Type::Var(k) => {
            if *k >= cutoff {
                Type::Var(*k + d)
            } else {
                Type::Var(*k)
            }
        },
        Type::Arrow(a, b) => Type::Arrow(Box::new(shift_walk(a, d, cutoff)), Box::new(shift_walk(b, d, cutoff))),
        Type::Univ(a) => {
            if cutoff < usize::MAX {
                Type::Univ(Box::new(shift_walk(a, d, cutoff + 1)))
            } else {
                proof {
                    lemma_shift_unreachable(**a, d as int, cutoff + 1);
                }
                Type::Univ(Box::new(a.duplicate()))
            }
        },
        Type::Unit => Type::Unit,
        Type::Exist(v) => Type::Exist(*v),
    }
}

fn subst_walk(t: &Type, c: usize, s: &Type) -> (r: Type)
    requires
        subst_fits(*t, c as int, *s),
    ensures
        r == subst_at(*t, c as int, *s),
    decreases t,
{
    match t {
        Type::Var(n) => {
            if *n == c {
                shift_walk(s, c, 0)
            } else {
                Type::Var(*n)
            }
        },
        Type::Arrow(a, b) => Type::Arrow(Box::new(subst_walk(a, c, s)), Box::new(subst_walk(b, c, s))),
        Type::Univ(a) => {
            if c < usize::MAX {
                Type::Univ(Box::new(subst_walk(a, c + 1, s)))
            } else {
                proof {
                    lemma_subst_unreachable(**a, c + 1, *s);
                }
                Type::Univ(Box::new(a.duplicate()))
            }
        },
        Type::Unit => Type::Unit,
        Type::Exist(v) => Type::Exist(*v),
    }
}

fn open_walk(t: &Type, c: usize, alpha: usize) -> (r: Type)
    ensures
        r == open_at(*t, c as int, alpha),
    decreases t,
{
    match t {
        Type::Var(n) => {
            if *n == c {
                Type::Exist(alpha)
            } else if *n > c {
                Type::Var(*n - 1)
            } else {
                Type::Var(*n)
            }
        },
        Type::Arrow(a, b) => Type::Arrow(Box::new(open_walk(a, c, alpha)), Box::new(open_walk(b, c, alpha))),
        Type::Univ(a) => {
            if c < usize::MAX {
                Type::Univ(Box::new(open_walk(a, c + 1, alpha)))
            } else {
                proof {
                    lemma_open_unreachable(**a, c + 1, alpha);
                }
                Type::Univ(Box::new(a.duplicate()))
            }
        },
        Type::Unit => Type::Unit,
        Type::Exist(v) => Type::Exist(*v),
    }
}

impl Type {
    /// The body of a quantifier opened with the existential variable
    /// `alpha`: `self` is the body, its bound variable `Var(0)` becomes
    /// `Exist(alpha)`, and the variables bound further out move one binder
    /// down.
    pub fn open_with(&self, alpha: usize) -> (r: Type)
        ensures
            r == open_at(*self, 0, alpha),
    {
        open_walk(self, 0, alpha)
    }

    /// Whether no universal quantifier occurs in the type.
    pub fn monotype(&self) -> (r: bool)
        ensures
            r == is_monotype(*self),
        decreases self,
    {
        match self {
            Type::Univ(_) => false,
            Type::Arrow(t1, t2) => t1.monotype() && t2.monotype(),
            _ => true,
        }
    }

    /// Collect the free existential variables of the type
    pub fn freevars(&self) -> (r: Vec<usize>)
        ensures
            r@ == free_exists(*self),
    {
        let mut v: Vec<usize> = Vec::new();
        collect_exists(self, &mut v);
        assert(Seq::<usize>::empty() + free_exists(*self) =~= free_exists(*self));
        v
    }

    /// Perform substitution of type `s` into self for the variable bound by
    /// the nearest enclosing quantifier (de Bruijn index 0 at the top),
    /// shifting `s` under each binder crossed (the TAPL algorithm). The
    /// shifted indices must fit in `usize`.
    pub fn subst(&mut self, s: &Type)
        requires
            subst_fits(*old(self), 0, *s),
        ensures
            *final(self) == subst_at(*old(self), 0, *s),
    {
        let r = subst_walk(self, 0, s);
        *self = r;
    }

    /// A structural copy of the type.
    pub fn duplicate(&self) -> (r: Type)
        ensures
            r == *self,
        decreases self,
    {
        match self {
            Type::Unit => Type::Unit,
            Type::Var(n) => Type::Var(*n),
            Type::Arrow(a, b) => Type::Arrow(Box::new(a.duplicate()), Box::new(b.duplicate())),
            Type::Exist(v) => Type::Exist(*v),
            Type::Univ(a) => Type::Univ(Box::new(a.duplicate())),
        }
    }

    /// Structural equality of types.
    pub fn same(&self, other: &Type) -> (r: bool)
        ensures
            r == (*self == *other),
        decreases self,
    {
        match (self, other) {
            (Type::Unit, Type::Unit) => true,
            (Type::Var(a), Type::Var(b)) => *a == *b,
            (Type::Exist(a), Type::Exist(b)) => *a == *b,
            (Type::Arrow(a1, a2), Type::Arrow(b1, b2)) => a1.same(b1) && a2.same(b2),
            (Type::Univ(a), Type::Univ(b)) => a.same(b),
            _ => false,
        }
    }
}

impl Clone for Type {
    /// A structural copy of the type.
    fn clone(&self) -> (r: Type)
        ensures
            r == *self,
    {
        self.duplicate()
    }
}

impl Clone for Expr {
    /// A structural copy of the expression.
    fn clone(&self) -> (r: Expr)
        ensures
            r == *self,
    {
        self.duplicate()
    }
}

impl Clone for Element {
    /// A structural copy of the element.
    fn clone(&self) -> (r: Element)
        ensures
            r == *self,
    {
        self.duplicate()
    }
}

impl Expr {
    /// A structural copy of the expression.
    pub fn duplicate(&self) -> (r: Expr)
        ensures
            r == *self,
        decreases self,
    {
        match self {
            Expr::Unit => Expr::Unit,
            Expr::Var(n) => Expr::Var(*n),
            Expr::Abs(b) => Expr::Abs(Box::new(b.duplicate())),
            Expr::App(a, b) => Expr::App(Box::new(a.duplicate()), Box::new(b.duplicate())),
            Expr::Ann(e, t) => Expr::Ann(Box::new(e.duplicate()), Box::new(t.duplicate())),
        }
    }
}

impl Element {
    /// A structural copy of the element.
    pub fn duplicate(&self) -> (r: Element)
        ensures
            r == *self,
    {
        match self {
            Element::Var => Element::Var,
            Element::Ann(t) => Element::Ann(t.duplicate()),
            Element::Exist(n) => Element::Exist(*n),
            Element::Solved(n, t) => Element::Solved(*n, t.duplicate()),
            Element::Marker(n) => Element::Marker(*n),
        }
    }

    /// Structural equality of context elements.
    pub fn same(&self, other: &Element) -> (r: bool)
        ensures
            r == (*self == *other),
    {
        match (self, other) {
            (Element::Var, Element::Var) => true,
            (Element::Ann(a), Element::Ann(b)) => a.same(b),
            (Element::Exist(a), Element::Exist(b)) => *a == *b,
            (Element::Solved(a, s), Element::Solved(b, t)) => *a == *b && s.same(t),
            (Element::Marker(a), Element::Marker(b)) => *a == *b,
            _ => false,
        }
    }
}

} // verus!

verus! {

/// Why typing failed. Each variant carries the values the failing rule
/// looked at.
#[derive(Debug, PartialEq)]
pub enum TypeError {
    /// A type annotation mentions variables not in scope.
    NotWellFormed(Type),
    /// No unsolved existential variable with this number is in the context.
    NotBound(usize),
    /// The first type is not a subtype of the second.
    NotSubtype(Type, Type),
    /// The existential variable cannot be instantiated to the type.
    CannotInstantiate(usize, Type),
    /// A term variable (de Bruijn index) has no annotation in scope.
    UnboundVar(usize),
    /// The type of a function position cannot be applied to the argument.
    CannotApply(Expr, Type),
}

} // verus!
