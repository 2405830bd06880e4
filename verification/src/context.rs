//! The algorithmic typing context: an ordered stack of elements plus a
//! counter for fresh existential variables, and the operations that read
//! and reshape it.
use vstd::prelude::*;
use crate::types::{Element, Type, TypeError};

verus! {

/// The mathematical value of a context: its elements, bottom first, and
/// the next fresh existential variable.
pub struct CtxState {
    pub elems: Seq<Element>,
    pub ev: nat,
}

/// The typing context of the algorithm.
#[derive(Debug, PartialEq)]
pub struct Context {
    /// We model the algorithmic context as a simple stack of elements
    ctx: Vec<Element>,
    /// We assign fresh exist. variables a unique, strictly increasing number
    ev: usize,
}

impl View for Context {
    type V = CtxState;

    closed spec fn view(&self) -> CtxState {
        CtxState { elems: self.ctx@, ev: self.ev as nat }
    }
}

/// The annotation of the term variable with de Bruijn index `idx`: counting
/// annotations from the top of the stack, the `idx`-th one.
pub open spec fn find_ann(elems: Seq<Element>, idx: nat) -> Option<Type>
    decreases elems.len(),
{
    if elems.len() == 0 {
        None
    } else {
        match elems.last() {
            Element::Ann(t) => if idx == 0 {
                Some(t)
            } else {
                find_ann(elems.drop_last(), (idx - 1) as nat)
            },
            _ => find_ann(elems.drop_last(), idx),
        }
    }
}

/// Whether the universal type variable with de Bruijn index `idx` is bound:
/// counting universal variables from the top of the stack, there are more
/// than `idx`.
pub open spec fn find_tvar(elems: Seq<Element>, idx: nat) -> bool
    decreases elems.len(),
{
    if elems.len() == 0 {
        false
    } else {
        match elems.last() {
            Element::Var => if idx == 0 {
                true
            } else {
                find_tvar(elems.drop_last(), (idx - 1) as nat)
            },
            _ => find_tvar(elems.drop_last(), idx),
        }
    }
}

/// The solution of the bottom-most `Solved` element for `alpha`, if any.
pub open spec fn solution_of(elems: Seq<Element>, alpha: usize) -> Option<Type>
    decreases elems.len(),
{
    if elems.len() == 0 {
        None
    } else {
        match elems[0] {
            Element::Solved(n, t) => if n == alpha {
                Some(t)
            } else {
                solution_of(elems.subrange(1, elems.len() as int), alpha)
            },
            _ => solution_of(elems.subrange(1, elems.len() as int), alpha),
        }
    }
}

/// The position of the top-most unsolved `Exist(alpha)`, if any.
pub open spec fn last_exist(elems: Seq<Element>, alpha: usize) -> Option<int>
    decreases elems.len(),
{
    if elems.len() == 0 {
        None
    } else if elems.last() == Element::Exist(alpha) {
        Some(elems.len() - 1)
    } else {
        last_exist(elems.drop_last(), alpha)
    }
}

/// The stack after popping everything above the top-most element equal to
/// `e`, and `e` itself; `None` when no element equals `e`.
pub open spec fn pop_until(elems: Seq<Element>, e: Element) -> Option<Seq<Element>>
    decreases elems.len(),
{
    if elems.len() == 0 {
        None
    } else if elems.last() == e {
        Some(elems.drop_last())
    } else {
        pop_until(elems.drop_last(), e)
    }
}

/// Whether a type is well formed in a context: its existential variables
/// are declared (solved or not), and its universal variables are bound.
pub open spec fn wf_type(elems: Seq<Element>, t: Type) -> bool
    decreases t,
{
    match t {
        Type::Exist(alpha) => elems.contains(Element::Exist(alpha)) || solution_of(elems, alpha) is Some,
        Type::Univ(a) => wf_type(elems.push(Element::Var), *a),
        Type::Var(idx) => find_tvar(elems, idx as nat),
        Type::Arrow(a, b) => wf_type(elems, *a) && wf_type(elems, *b),
        Type::Unit => true,
    }
}

/// Applying a context to a type: every solved existential variable is
/// replaced by its solution, itself applied. Following a solution costs one
/// unit of `fuel`; `None` when the fuel runs out.
pub open spec fn apply_fuel(elems: Seq<Element>, t: Type, fuel: nat) -> Option<Type>
    decreases fuel, t,
{
    match t {
        Type::Unit | Type::Var(_) => Some(t),
        Type::Arrow(a, b) => match (apply_fuel(elems, *a, fuel), apply_fuel(elems, *b, fuel)) {
            (Some(x), Some(y)) => Some(Type::Arrow(Box::new(x), Box::new(y))),
            _ => None,
        },
        Type::Univ(a) => match apply_fuel(elems, *a, fuel) {
            Some(x) => Some(Type::Univ(Box::new(x))),
            None => None,
        },
        Type::Exist(n) => match solution_of(elems, n) {
            Some(s) => if fuel == 0 {
                None
            } else {
                apply_fuel(elems, s, (fuel - 1) as nat)
            },
            None => Some(t),
        },
    }
}

/// Applying the context terminates: following solutions ends within some
/// bound.
pub open spec fn apply_terminates(elems: Seq<Element>, t: Type) -> bool {
    exists|fuel: nat| #[trigger] apply_fuel(elems, t, fuel) is Some
}

} // verus!

verus! {

/// The stack with the top-most unsolved `Exist(exist)` replaced by `ins`;
/// `None` when there is no such element.
pub open spec fn splice(elems: Seq<Element>, exist: usize, ins: Seq<Element>) -> Option<Seq<Element>> {
    match last_exist(elems, exist) {
        Some(idx) => Some(elems.subrange(0, idx) + ins + elems.subrange(idx + 1, elems.len() as int)),
        None => None,
    }
}

/// A position found by `last_exist` holds `Exist(alpha)`.
pub proof fn lemma_last_exist_bounds(elems: Seq<Element>, alpha: usize)
    ensures
        last_exist(elems, alpha) matches Some(i) ==> 0 <= i < elems.len() && elems[i] == Element::Exist(alpha),
        last_exist(elems, alpha) is None ==> !elems.contains(Element::Exist(alpha)),
    decreases elems.len(),
{
    if elems.len() > 0 {
        lemma_last_exist_bounds(elems.drop_last(), alpha);
        if elems.last() != Element::Exist(alpha) && last_exist(elems, alpha) is None {
            assert forall|k: int| 0 <= k < elems.len() implies elems[k] != Element::Exist(alpha) by {
                if k < elems.len() - 1 {
                    assert(elems.drop_last()[k] == elems[k]);
                }
            }
        }
    }
}

/// Applying with more fuel gives the same result once applying finished.
pub proof fn lemma_apply_fuel_mono(elems: Seq<Element>, t: Type, f1: nat, f2: nat)
    requires
        apply_fuel(elems, t, f1) is Some,
        f1 <= f2,
    ensures
        apply_fuel(elems, t, f2) == apply_fuel(elems, t, f1),
    decreases f1, t,
{
    match t {
        Type::Arrow(a, b) => {
            lemma_apply_fuel_mono(elems, *a, f1, f2);
            lemma_apply_fuel_mono(elems, *b, f1, f2);
        },
        Type::Univ(a) => {
            lemma_apply_fuel_mono(elems, *a, f1, f2);
        },
        Type::Exist(n) => {
            if let Some(s) = solution_of(elems, n) {
                lemma_apply_fuel_mono(elems, s, (f1 - 1) as nat, (f2 - 1) as nat);
            }
        },
        _ => {},
    }
}

/// Two finished applications of the same context to the same type agree,
/// whatever fuel each was given.
pub proof fn lemma_apply_fuel_unique(elems: Seq<Element>, t: Type, f1: nat, f2: nat)
    requires
        apply_fuel(elems, t, f1) is Some,
        apply_fuel(elems, t, f2) is Some,
    ensures
        apply_fuel(elems, t, f1) == apply_fuel(elems, t, f2),
{
    if f1 <= f2 {
        lemma_apply_fuel_mono(elems, t, f1, f2);
    } else {
        lemma_apply_fuel_mono(elems, t, f2, f1);
    }
}

impl Default for Context {
    fn default() -> (c: Context)
        ensures
            c@.elems == Seq::<Element>::empty(),
            c@.ev == 0,
    {
        Context { ctx: Vec::new(), ev: 0 }
    }
}

impl Clone for Context {
    /// A copy of the context: the same elements, in order, and the same
    /// counter.
    fn clone(&self) -> (r: Context)
        ensures
            r@ == self@,
    {
        let mut v: Vec<Element> = Vec::new();
        let mut i: usize = 0;
        while i < self.ctx.len()
            invariant
                i <= self.ctx.len(),
                v@ == self.ctx@.subrange(0, i as int),
            decreases self.ctx.len() - i,
        {
            v.push(self.ctx[i].duplicate());
            i = i + 1;
            assert(v@ =~= self.ctx@.subrange(0, i as int));
        }
        assert(v@ =~= self.ctx@);
        Context { ctx: v, ev: self.ev }
    }
}

impl Context {
    /// An empty context whose first fresh existential variable is 0.
    pub fn new() -> (c: Context)
        ensures
            c@.elems == Seq::<Element>::empty(),
            c@.ev == 0,
    {
        Context { ctx: Vec::new(), ev: 0 }
    }

    /// The elements of the context, bottom first.
    pub fn elements(&self) -> (r: &Vec<Element>)
        ensures
            r@ == self@.elems,
    {
        &self.ctx
    }

    /// The next fresh existential variable.
    pub fn next_ev(&self) -> (r: usize)
        ensures
            r == self@.ev,
    {
        self.ev
    }

    /// Generate a fresh identifier
    pub fn fresh_ev(&mut self) -> (r: usize)
        requires
            old(self)@.ev < usize::MAX,
        ensures
            r == old(self)@.ev,
            final(self)@.ev == old(self)@.ev + 1,
            final(self)@.elems == old(self)@.elems,
    {
        let e = self.ev;
        self.ev += 1;
        e
    }

    /// Pushes an element on top of the stack.
    pub fn push(&mut self, e: Element)
        ensures
            final(self)@.elems == old(self)@.elems.push(e),
            final(self)@.ev == old(self)@.ev,
    {
        self.ctx.push(e);
    }

    /// Pushes the elements of `rest` on top of the stack, bottom first.
    pub fn extend(&mut self, rest: Vec<Element>)
        ensures
            final(self)@.elems == old(self)@.elems + rest@,
            final(self)@.ev == old(self)@.ev,
    {
        let mut rest = rest;
        self.ctx.append(&mut rest);
    }

    /// Whether the stack holds an element equal to `e`.
    pub fn contains(&self, e: &Element) -> (r: bool)
        ensures
            r == self@.elems.contains(*e),
    {
        let mut i: usize = 0;
        while i < self.ctx.len()
            invariant
                i <= self.ctx@.len(),
                forall|k: int| 0 <= k < i ==> self.ctx@[k] != *e,
            decreases self.ctx@.len() - i,
        {
            if self.ctx[i].same(e) {
                return true;
            }
            i += 1;
        }
        false
    }

    /// Find the term annotation corresponding to de Bruijn index `idx`.
    /// We traverse the stack in a reversed order, counting each annotation
    /// we come across
    pub fn find_annotation(&self, idx: usize) -> (r: Option<&Type>)
        ensures
            match r {
                Some(t) => find_ann(self@.elems, idx as nat) == Some(*t),
                None => find_ann(self@.elems, idx as nat) is None,
            },
    {
        let mut ix: usize = 0;
        let mut i: usize = self.ctx.len();
        assert(self.ctx@.take(i as int) =~= self.ctx@);
        while i > 0
            invariant
                i <= self.ctx@.len(),
                ix <= idx,
                find_ann(self.ctx@, idx as nat) == find_ann(self.ctx@.take(i as int), (idx - ix) as nat),
            decreases i,
        {
            i -= 1;
            assert(self.ctx@.take(i + 1).drop_last() =~= self.ctx@.take(i as int));
            assert(self.ctx@.take(i + 1).last() == self.ctx@[i as int]);
            match &self.ctx[i] {
                Element::Ann(ty) => {
                    if ix == idx {
                        return Some(ty);
                    }
                    ix += 1;
                },
                _ => {},
            }
        }
        None
    }

    /// Whether the universal type variable with de Bruijn index `idx` is
    /// bound. We traverse the stack in a reversed order, counting each
    /// universal variable we come across
    pub fn find_type_var(&self, idx: usize) -> (r: bool)
        ensures
            r == find_tvar(self@.elems, idx as nat),
    {
        let mut ix: usize = 0;
        let mut i: usize = self.ctx.len();
        assert(self.ctx@.take(i as int) =~= self.ctx@);
        while i > 0
            invariant
                i <= self.ctx@.len(),
                ix <= idx,
                find_tvar(self.ctx@, idx as nat) == find_tvar(self.ctx@.take(i as int), (idx - ix) as nat),
            decreases i,
        {
            i -= 1;
            assert(self.ctx@.take(i + 1).drop_last() =~= self.ctx@.take(i as int));
            assert(self.ctx@.take(i + 1).last() == self.ctx@[i as int]);
            match &self.ctx[i] {
                Element::Var => {
                    if ix == idx {
                        return true;
                    }
                    ix += 1;
                },
                _ => {},
            }
        }
        false
    }

    /// Find the monotype associated with a solved existential variable `alpha`
    /// in the context, if it exists.
    pub fn find_solved(&self, alpha: usize) -> (r: Option<&Type>)
        ensures
            match r {
                Some(t) => solution_of(self@.elems, alpha) == Some(*t),
                None => solution_of(self@.elems, alpha) is None,
            },
    {
        let mut i: usize = 0;
        let ghost len = self.ctx@.len() as int;
        assert(self.ctx@.subrange(0, len) =~= self.ctx@);
        while i < self.ctx.len()
            invariant
                i <= self.ctx@.len(),
                len == self.ctx@.len(),
                solution_of(self.ctx@, alpha) == solution_of(self.ctx@.subrange(i as int, len), alpha),
            decreases self.ctx@.len() - i,
        {
            assert(self.ctx@.subrange(i as int, len).subrange(1, len - i) =~= self.ctx@.subrange(i + 1, len));
            assert(self.ctx@.subrange(i as int, len)[0] == self.ctx@[i as int]);
            match &self.ctx[i] {
                Element::Solved(n, ty) => {
                    if *n == alpha {
                        return Some(ty);
                    }
                },
                _ => {},
            }
            i += 1;
        }
        None
    }

    /// The position of the top-most unsolved `Exist(exist)`.
    fn last_exist_index(&self, exist: usize) -> (r: Option<usize>)
        ensures
            match r {
                Some(i) => last_exist(self@.elems, exist) == Some(i as int),
                None => last_exist(self@.elems, exist) is None,
            },
    {
        let mut ret: Option<usize> = None;
        let mut i: usize = 0;
        while i < self.ctx.len()
            invariant
                i <= self.ctx@.len(),
                match ret {
                    Some(k) => last_exist(self.ctx@.take(i as int), exist) == Some(k as int),
                    None => last_exist(self.ctx@.take(i as int), exist) is None,
                },
            decreases self.ctx@.len() - i,
        {
            assert(self.ctx@.take(i + 1).drop_last() =~= self.ctx@.take(i as int));
            assert(self.ctx@.take(i + 1).last() == self.ctx@[i as int]);
            match &self.ctx[i] {
                Element::Exist(n) => {
                    if *n == exist {
                        ret = Some(i);
                    }
                },
                _ => {},
            }
            i += 1;
        }
        assert(self.ctx@.take(self.ctx@.len() as int) =~= self.ctx@);
        ret
    }

    /// Cuts the context at the top-most unsolved `Exist(exist)`: the context
    /// keeps what lies below it, and what lies above it is returned.
    pub fn split_context(&mut self, exist: usize) -> (r: Result<Vec<Element>, TypeError>)
        ensures
            final(self)@.ev == old(self)@.ev,
            match last_exist(old(self)@.elems, exist) {
                Some(idx) => r matches Ok(rest) && rest@ == old(self)@.elems.subrange(idx + 1, old(self)@.elems.len() as int)
                    && final(self)@.elems == old(self)@.elems.subrange(0, idx),
                None => r == Err::<Vec<Element>, TypeError>(TypeError::NotBound(exist)) && final(self)@.elems == old(self)@.elems,
            },
    {
        let idx = match self.last_exist_index(exist) {
            Some(i) => i,
            None => return Err(TypeError::NotBound(exist)),
        };
        proof {
            lemma_last_exist_bounds(self.ctx@, exist);
            assert(last_exist(self.ctx@, exist) == Some(idx as int));
            assert(idx < self.ctx@.len());
        }
        let n = self.ctx.len();
        assert(idx < n);
        let rest = self.ctx.split_off(idx + 1);
        self.ctx.pop();
        Ok(rest)
    }

    /// Opens a hole in the context where the top-most unsolved
    /// `Exist(exist)` was, and fills it with `ins`.
    pub fn splice_hole(&mut self, exist: usize, ins: Vec<Element>) -> (r: Result<(), TypeError>)
        ensures
            final(self)@.ev == old(self)@.ev,
            match splice(old(self)@.elems, exist, ins@) {
                Some(elems) => r == Ok::<(), TypeError>(()) && final(self)@.elems == elems,
                None => r == Err::<(), TypeError>(TypeError::NotBound(exist)) && final(self)@.elems == old(self)@.elems,
            },
    {
        let idx = match self.last_exist_index(exist) {
            Some(i) => i,
            None => return Err(TypeError::NotBound(exist)),
        };
        proof {
            lemma_last_exist_bounds(self.ctx@, exist);
            assert(last_exist(self.ctx@, exist) == Some(idx as int));
            assert(idx < self.ctx@.len());
        }
        let n = self.ctx.len();
        assert(idx < n);
        let mut rest = self.ctx.split_off(idx + 1);
        self.ctx.pop();
        let mut ins = ins;
        self.ctx.append(&mut ins);
        self.ctx.append(&mut rest);
        Ok(())
    }

    /// Pops every element above the top-most one equal to `e`, then that one:
    /// the stack growth since `e` was pushed.
    pub fn pop_scope(&mut self, e: &Element)
        requires
            pop_until(old(self)@.elems, *e) is Some,
        ensures
            final(self)@.elems == pop_until(old(self)@.elems, *e).unwrap(),
            final(self)@.ev == old(self)@.ev,
    {
        let ghost target = pop_until(self.ctx@, *e);
        while !self.ctx[self.ctx.len() - 1].same(e)
            invariant
                pop_until(self.ctx@, *e) == target,
                target is Some,
                self.ctx@.len() > 0,
                self.ev == old(self).ev,
            decreases self.ctx@.len(),
        {
            self.ctx.pop();
            assert(self.ctx@.len() > 0);
        }
        self.ctx.pop();
    }

    /// Whether `ty` is well formed in the context. The context is the same
    /// before and after the call.
    pub fn well_formed(&mut self, ty: &Type) -> (r: bool)
        ensures
            r == wf_type(old(self)@.elems, *ty),
            final(self)@ == old(self)@,
        decreases ty,
    {
        match ty {
            Type::Exist(alpha) => self.contains(&Element::Exist(*alpha)) || self.find_solved(*alpha).is_some(),
            Type::Univ(a) => {
                self.ctx.push(Element::Var);
                let t = self.well_formed(a);
                assert(self.ctx@.drop_last() =~= old(self).ctx@);
                self.pop_scope(&Element::Var);
                t
            },
            Type::Var(idx) => self.find_type_var(*idx),
            Type::Arrow(a, b) => self.well_formed(a) && self.well_formed(b),
            Type::Unit => true,
        }
    }

    /// `Ok(true)` when `ty` is well formed in the context, else an error
    /// naming it. The context is unchanged.
    pub fn check_wf(&mut self, ty: &Type) -> (r: Result<bool, TypeError>)
        ensures
            final(self)@ == old(self)@,
            r == if wf_type(old(self)@.elems, *ty) {
                Ok::<bool, TypeError>(true)
            } else {
                Err(TypeError::NotWellFormed(*ty))
            },
    {
        if self.well_formed(ty) {
            Ok(true)
        } else {
            Err(TypeError::NotWellFormed(ty.duplicate()))
        }
    }

    pub(crate) fn apply_with(&self, ty: Type, Ghost(fuel): Ghost<nat>) -> (r: Type)
        requires
            apply_fuel(self@.elems, ty, fuel) is Some,
        ensures
            apply_fuel(self@.elems, ty, fuel) == Some(r),
        decreases fuel, ty,
    {
        match ty {
            Type::Unit => Type::Unit,
            Type::Var(n) => Type::Var(n),
            Type::Arrow(a, b) => Type::Arrow(
                Box::new(self.apply_with(*a, Ghost(fuel))),
                Box::new(self.apply_with(*b, Ghost(fuel))),
            ),
            Type::Univ(t) => Type::Univ(Box::new(self.apply_with(*t, Ghost(fuel)))),
            Type::Exist(n) => {
                match self.find_solved(n) {
                    // Apply to the solved variable also - this is important
                    // since we can have solved references deeper in the stack
                    Some(solved) => self.apply_with(solved.duplicate(), Ghost((fuel - 1) as nat)),
                    None => Type::Exist(n),
                }
            },
        }
    }

    /// Apply the context to a type, replacing any solved existential variables
    /// in the context onto the type, if it contains a matching existential
    pub fn apply(&self, ty: Type) -> (r: Type)
        requires
            apply_terminates(self@.elems, ty),
        ensures
            forall|fuel: nat| #[trigger] apply_fuel(self@.elems, ty, fuel) is Some ==> apply_fuel(self@.elems, ty, fuel) == Some(r),
    {
        let ghost fuel = choose|fuel: nat| #[trigger] apply_fuel(self@.elems, ty, fuel) is Some;
        let ghost t = ty;
        let r = self.apply_with(ty, Ghost(fuel));
        proof {
            assert forall|g: nat| #[trigger] apply_fuel(self@.elems, t, g) is Some implies apply_fuel(self@.elems, t, g) == Some(r) by {
                lemma_apply_fuel_unique(self@.elems, t, fuel, g);
            }
        }
        r
    }
}

/// Leaving a scope finds its element exactly when the stack holds it.
pub proof fn lemma_pop_until_found(elems: Seq<Element>, e: Element)
    ensures
        pop_until(elems, e) is Some <==> elems.contains(e),
    decreases elems.len(),
{
    if elems.len() > 0 {
        lemma_pop_until_found(elems.drop_last(), e);
        if elems.last() != e {
            if elems.contains(e) {
                let k = choose|k: int| 0 <= k < elems.len() && elems[k] == e;
                assert(k < elems.len() - 1);
                assert(elems.drop_last()[k] == e);
            }
            if elems.drop_last().contains(e) {
                let k = choose|k: int| 0 <= k < elems.drop_last().len() && elems.drop_last()[k] == e;
                assert(elems[k] == e);
            }
        } else {
            assert(elems[elems.len() - 1] == e);
        }
    }
}

impl Context {
    /// Leaves the scope opened by `e` when the stack holds `e`, answering
    /// whether it did; the stack is unchanged otherwise.
    pub fn try_pop_scope(&mut self, e: &Element) -> (r: bool)
        ensures
            r == (pop_until(old(self)@.elems, *e) is Some),
            r ==> final(self)@.elems == pop_until(old(self)@.elems, *e).unwrap(),
            !r ==> final(self)@.elems == old(self)@.elems,
            final(self)@.ev == old(self)@.ev,
    {
        proof {
            lemma_pop_until_found(self@.elems, *e);
        }
        if self.contains(e) {
            self.pop_scope(e);
            true
        } else {
            false
        }
    }

    /// Applies the context to `ty`, following at most `fuel` solutions in a
    /// row; `None` when that does not suffice.
    pub fn apply_within(&self, ty: Type, fuel: u64) -> (r: Option<Type>)
        ensures
            r == apply_fuel(self@.elems, ty, fuel as nat),
        decreases fuel, ty,
    {
        match ty {
            Type::Unit => Some(Type::Unit),
            Type::Var(n) => Some(Type::Var(n)),
            Type::Arrow(a, b) => {
                let x = match self.apply_within(*a, fuel) {
                    Some(x) => x,
                    None => return None,
                };
                let y = match self.apply_within(*b, fuel) {
                    Some(y) => y,
                    None => return None,
                };
                Some(Type::Arrow(Box::new(x), Box::new(y)))
            },
            Type::Univ(t) => match self.apply_within(*t, fuel) {
                Some(x) => Some(Type::Univ(Box::new(x))),
                None => None,
            },
            Type::Exist(n) => {
                match self.find_solved(n) {
                    Some(solved) => {
                        if fuel == 0 {
                            None
                        } else {
                            self.apply_within(solved.duplicate(), fuel - 1)
                        }
                    },
                    None => Some(Type::Exist(n)),
                }
            },
        }
    }
}

} // verus!
