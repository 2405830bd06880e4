//! Instantiation solves: instantiating an unsolved existential variable to
//! a monotype without type variables, whose existential variables are
//! unsolved and different from it, never fails. Along the way it solves
//! only that variable, variables of the type and fresh ones, each to such a
//! monotype again, and leaves every other variable as it was.
use vstd::prelude::*;
use crate::types::{Element, Type, free_exists, is_monotype};
use crate::context::{CtxState, apply_fuel, last_exist, solution_of, splice, wf_type};
use crate::semantics::{Run, articulation, inst_l_run, inst_r_run, st_fresh, st_with};
use crate::deep_fresh::{
    all_names_below, lemma_inst_l_names_below, lemma_inst_r_names_below, lemma_names_articulation, names_below,
    type_below,
};
use crate::laws::{lemma_apply_fully_applied, lemma_solution_is_declared};

verus! {

/// A monotype in which no universal type variable occurs: built from `()`,
/// existential variables and function types.
pub open spec fn var_free(t: Type) -> bool
    decreases t,
{
    match t {
        Type::Unit | Type::Exist(_) => true,
        Type::Arrow(a, b) => var_free(*a) && var_free(*b),
        Type::Var(_) | Type::Univ(_) => false,
    }
}

/// `n` is declared in the stack, solved or not.
pub open spec fn declared(elems: Seq<Element>, n: usize) -> bool {
    elems.contains(Element::Exist(n)) || solution_of(elems, n) is Some
}

/// `n` is declared in the stack and has no solution.
pub open spec fn unsolved(elems: Seq<Element>, n: usize) -> bool {
    elems.contains(Element::Exist(n)) && solution_of(elems, n) is None
}

/// What instantiating `alpha` to `a` needs from the context: `alpha` and
/// every existential variable of `a` are declared and unsolved, `alpha` does
/// not occur in `a`, `a` is a monotype without type variables, every
/// number the context names is below its counter, and the context is well
/// ordered (see `well_ordered`).
pub open spec fn can_instantiate(st: CtxState, alpha: usize, a: Type) -> bool {
    &&& well_ordered(st.elems)
    &&& unsolved(st.elems, alpha)
    &&& var_free(a)
    &&& forall|n: usize| #[trigger] free_exists(a).contains(n) ==> n != alpha && unsolved(st.elems, n)
    &&& all_names_below(st.elems, st.ev)
}

/// The variables that instantiating `alpha` to `a` from `st` may solve or
/// mention in a solution: `alpha`, those of `a`, and fresh ones.
pub open spec fn may_touch(st: CtxState, alpha: usize, a: Type, y: usize) -> bool {
    y == alpha || free_exists(a).contains(y) || y >= st.ev
}

/// The solution `x` has in `fin` is new since `st`: it is a monotype
/// without type variables whose existential variables instantiating `alpha`
/// to `a` may touch, were unsolved in `st`, and are declared in `fin`.
pub open spec fn new_solution(st: CtxState, fin: CtxState, alpha: usize, a: Type, x: usize) -> bool {
    match solution_of(fin.elems, x) {
        Some(u) => var_free(u) && forall|y: usize| #[trigger] free_exists(u).contains(y) ==> may_touch(st, alpha, a, y)
            && solution_of(st.elems, y) is None && declared(fin.elems, y),
        None => false,
    }
}

/// What instantiating `alpha` to `a` from `st` leaves in `fin`: the counter
/// does not go back, declared variables stay declared, variables it may not
/// touch keep their solution (or its absence) and their declaration, and
/// every solution that changed is a new solution.
pub open spec fn instance_of(st: CtxState, fin: CtxState, alpha: usize, a: Type) -> bool {
    &&& fin.ev >= st.ev
    &&& forall|y: usize| #[trigger] declared(st.elems, y) ==> declared(fin.elems, y)
    &&& forall|m: usize| !may_touch(st, alpha, a, m) ==> #[trigger] solution_of(fin.elems, m) == solution_of(st.elems, m)
        && (st.elems.contains(Element::Exist(m)) ==> fin.elems.contains(Element::Exist(m)))
    &&& forall|x: usize| #[trigger] solution_of(fin.elems, x) != solution_of(st.elems, x) ==> new_solution(
        st,
        fin,
        alpha,
        a,
        x,
    )
}

proof fn lemma_var_free_monotype(t: Type)
    requires
        var_free(t),
    ensures
        is_monotype(t),
    decreases t,
{
    if let Type::Arrow(a, b) = t {
        lemma_var_free_monotype(*a);
        lemma_var_free_monotype(*b);
    }
}

proof fn lemma_exists_of_arrow(a: Type, b: Type, n: usize)
    ensures
        free_exists(Type::Arrow(Box::new(a), Box::new(b))).contains(n) <==> free_exists(a).contains(n)
            || free_exists(b).contains(n),
{
    let s = free_exists(Type::Arrow(Box::new(a), Box::new(b)));
    assert(s == free_exists(a) + free_exists(b));
    if s.contains(n) {
        let k = choose|k: int| 0 <= k < s.len() && s[k] == n;
        if k < free_exists(a).len() {
            assert(free_exists(a)[k] == n);
        } else {
            assert(free_exists(b)[k - free_exists(a).len()] == n);
        }
    }
    if free_exists(a).contains(n) {
        let k = choose|k: int| 0 <= k < free_exists(a).len() && free_exists(a)[k] == n;
        assert(s[k] == n);
    }
    if free_exists(b).contains(n) {
        let k = choose|k: int| 0 <= k < free_exists(b).len() && free_exists(b)[k] == n;
        assert(s[free_exists(a).len() + k] == n);
    }
}

proof fn lemma_exists_of_exist(m: usize, n: usize)
    ensures
        free_exists(Type::Exist(m)).contains(n) <==> n == m,
{
    assert(free_exists(Type::Exist(m)) =~= seq![m]);
    if n == m {
        assert(free_exists(Type::Exist(m))[0] == n);
    }
}

/// Numbers declared in a stack that names only numbers below `ev` are below
/// `ev`.
proof fn lemma_declared_is_below(elems: Seq<Element>, n: usize, ev: nat)
    requires
        all_names_below(elems, ev),
        declared(elems, n),
    ensures
        n < ev,
{
    if elems.contains(Element::Exist(n)) {
        let k = choose|k: int| 0 <= k < elems.len() && elems[k] == Element::Exist(n);
        assert(names_below(elems[k], ev));
    } else {
        lemma_solution_is_declared(elems, n);
        let t = solution_of(elems, n).unwrap();
        let k = choose|k: int| 0 <= k < elems.len() && elems[k] == Element::Solved(n, t);
        assert(names_below(elems[k], ev));
    }
}

/// The solution in a concatenation is the first part's, if it has one.
proof fn lemma_solution_concat(a: Seq<Element>, b: Seq<Element>, y: usize)
    ensures
        solution_of(a + b, y) == (if solution_of(a, y) is Some {
            solution_of(a, y)
        } else {
            solution_of(b, y)
        }),
    decreases a.len(),
{
    if a.len() == 0 {
        assert(a + b =~= b);
    } else {
        let rest = a.subrange(1, a.len() as int);
        assert((a + b)[0] == a[0]);
        assert((a + b).subrange(1, (a + b).len() as int) =~= rest + b);
        lemma_solution_concat(rest, b, y);
    }
}

/// Replacing the element `Exist(x)` at `idx` by `ins`: other elements stay,
/// a solution changes only to one `ins` gives, and solutions stay solutions.
proof fn lemma_replace(elems: Seq<Element>, idx: int, x: usize, ins: Seq<Element>)
    requires
        0 <= idx < elems.len(),
        elems[idx] == Element::Exist(x),
    ensures
        ({
            let new = elems.subrange(0, idx) + ins + elems.subrange(idx + 1, elems.len() as int);
            &&& forall|y: usize| solution_of(ins, y) is None ==> #[trigger] solution_of(new, y) == solution_of(elems, y)
            &&& forall|y: usize| #[trigger] solution_of(new, y) != solution_of(elems, y) ==> solution_of(new, y)
                == solution_of(ins, y)
            &&& forall|y: usize| #[trigger] solution_of(elems, y) is Some ==> solution_of(new, y) is Some
            &&& forall|y: usize| solution_of(elems, y) is None ==> #[trigger] solution_of(new, y) == solution_of(ins, y)
            &&& forall|e: Element| elems.contains(e) && e != Element::Exist(x) ==> #[trigger] new.contains(e)
            &&& forall|e: Element| ins.contains(e) ==> #[trigger] new.contains(e)
        }),
{
    let pre = elems.subrange(0, idx);
    let post = elems.subrange(idx + 1, elems.len() as int);
    let new = pre + ins + post;
    let one = seq![Element::Exist(x)];
    assert(elems =~= pre + (one + post));
    assert(new =~= pre + (ins + post));
    assert forall|y: usize| #![all_triggers] true implies {
        &&& solution_of(ins, y) is None ==> solution_of(new, y) == solution_of(elems, y)
        &&& solution_of(new, y) != solution_of(elems, y) ==> solution_of(new, y) == solution_of(ins, y)
        &&& solution_of(elems, y) is Some ==> solution_of(new, y) is Some
        &&& solution_of(elems, y) is None ==> solution_of(new, y) == solution_of(ins, y)
    } by {
        lemma_solution_concat(pre, one + post, y);
        lemma_solution_concat(pre, ins + post, y);
        lemma_solution_concat(one, post, y);
        lemma_solution_concat(ins, post, y);
        assert(one.subrange(1, 1) =~= Seq::<Element>::empty());
        assert(one[0] == Element::Exist(x));
        assert(solution_of(one.subrange(1, 1), y) is None);
        assert(solution_of(one, y) is None);
    }
    assert forall|e: Element| elems.contains(e) && e != Element::Exist(x) implies #[trigger] new.contains(e) by {
        let k = choose|k: int| 0 <= k < elems.len() && elems[k] == e;
        if k < idx {
            assert(new[k] == e);
        } else {
            assert(k > idx);
            assert(new[k - 1 + ins.len()] == e);
        }
    }
    assert forall|e: Element| ins.contains(e) implies #[trigger] new.contains(e) by {
        let k = choose|k: int| 0 <= k < ins.len() && ins[k] == e;
        assert(new[idx + k] == e);
    }
}

proof fn lemma_found(elems: Seq<Element>, x: usize)
    requires
        elems.contains(Element::Exist(x)),
    ensures
        last_exist(elems, x) matches Some(i) && 0 <= i < elems.len() && elems[i] == Element::Exist(x),
{
    crate::context::lemma_last_exist_bounds(elems, x);
}

/// Every existential variable of a type the context can instantiate to is
/// below the counter.
proof fn lemma_instantiable_below(st: CtxState, alpha: usize, a: Type)
    requires
        can_instantiate(st, alpha, a),
    ensures
        type_below(a, st.ev),
        alpha < st.ev,
{
    lemma_declared_is_below(st.elems, alpha, st.ev);
    assert forall|n: usize| #[trigger] free_exists(a).contains(n) implies n < st.ev by {
        lemma_declared_is_below(st.elems, n, st.ev);
    }
}

proof fn lemma_single_solution(x: usize, u: Type, y: usize)
    ensures
        solution_of(seq![Element::Solved(x, u)], y) == (if y == x {
            Some(u)
        } else {
            None::<Type>
        }),
{
    let ins = seq![Element::Solved(x, u)];
    assert(ins[0] == Element::Solved(x, u));
    assert(ins.subrange(1, 1) =~= Seq::<Element>::empty());
    assert(solution_of(ins.subrange(1, 1), y) is None);
}

proof fn lemma_articulation_solution(alpha: usize, a1: usize, a2: usize, y: usize)
    ensures
        solution_of(articulation(alpha, a1, a2), y) == (if y == alpha {
            Some(Type::Arrow(Box::new(Type::Exist(a1)), Box::new(Type::Exist(a2))))
        } else {
            None::<Type>
        }),
        articulation(alpha, a1, a2).contains(Element::Exist(a1)),
        articulation(alpha, a1, a2).contains(Element::Exist(a2)),
{
    let ins = articulation(alpha, a1, a2);
    let arr = Type::Arrow(Box::new(Type::Exist(a1)), Box::new(Type::Exist(a2)));
    assert(ins[0] == Element::Exist(a2));
    assert(ins[1] == Element::Exist(a1));
    let r1 = ins.subrange(1, 3);
    let r2 = r1.subrange(1, 2);
    assert(r1[0] == Element::Exist(a1));
    assert(r2 =~= seq![Element::Solved(alpha, arr)]);
    lemma_single_solution(alpha, arr, y);
    assert(solution_of(r1, y) == solution_of(r2, y));
    assert(solution_of(ins, y) == solution_of(r1, y));
}

/// One `Exist(x)` replaced by a solution that instantiating `alpha` to `a`
/// may give: `x` may be touched, the solution is such a monotype, and its
/// variables may be touched, are unsolved and are declared elsewhere.
proof fn lemma_one_solution(st: CtxState, alpha: usize, a: Type, x: usize, u: Type)
    requires
        well_ordered(st.elems),
        last_exist(st.elems, x) is Some,
        forall|y: usize| #[trigger] free_exists(u).contains(y) ==> exists|j: int|
            0 <= j < last_exist(st.elems, x).unwrap() && #[trigger] declares(st.elems[j], y),
        unsolved(st.elems, x),
        may_touch(st, alpha, a, x),
        var_free(u),
        forall|y: usize| #[trigger] free_exists(u).contains(y) ==> may_touch(st, alpha, a, y) && solution_of(
            st.elems,
            y,
        ) is None && st.elems.contains(Element::Exist(y)) && y != x,
    ensures
        last_exist(st.elems, x) is Some,
        ({
            let idx = last_exist(st.elems, x).unwrap();
            instance_of(
                st,
                st_with(
                    st,
                    st.elems.subrange(0, idx) + seq![Element::Solved(x, u)] + st.elems.subrange(
                        idx + 1,
                        st.elems.len() as int,
                    ),
                ),
                alpha,
                a,
            )
        }),
        ({
            let idx = last_exist(st.elems, x).unwrap();
            let new = st.elems.subrange(0, idx) + seq![Element::Solved(x, u)] + st.elems.subrange(
                idx + 1,
                st.elems.len() as int,
            );
            solution_of(new, x) == Some(u) && well_ordered(new)
        }),
{
    lemma_found(st.elems, x);
    let idx = last_exist(st.elems, x).unwrap();
    let ins = seq![Element::Solved(x, u)];
    let new = st.elems.subrange(0, idx) + ins + st.elems.subrange(idx + 1, st.elems.len() as int);
    let fin = st_with(st, new);
    lemma_replace(st.elems, idx, x, ins);
    lemma_single_solution(x, u, x);
    assert(declares(ins[0], x));
    assert forall|k: int, y: usize| 0 <= k < ins.len() && #[trigger] mentions(ins[k], y) implies (exists|j: int|
        0 <= j < idx && #[trigger] declares(st.elems[j], y)) || (exists|k2: int|
        0 <= k2 < k && #[trigger] declares(ins[k2], y)) by {
        assert(free_exists(u).contains(y));
    }
    lemma_replace_ordered(st.elems, idx, x, ins, 0);
    assert forall|y: usize| #[trigger] declared(st.elems, y) implies declared(fin.elems, y) by {
        lemma_single_solution(x, u, y);
    }
    assert forall|m: usize| !may_touch(st, alpha, a, m) implies #[trigger] solution_of(fin.elems, m) == solution_of(
        st.elems,
        m,
    ) && (st.elems.contains(Element::Exist(m)) ==> fin.elems.contains(Element::Exist(m))) by {
        lemma_single_solution(x, u, m);
    }
    assert forall|z: usize| #[trigger] solution_of(fin.elems, z) != solution_of(st.elems, z) implies new_solution(
        st,
        fin,
        alpha,
        a,
        z,
    ) by {
        lemma_single_solution(x, u, z);
        assert(z == x);
        assert forall|y: usize| #[trigger] free_exists(u).contains(y) implies may_touch(st, alpha, a, y)
            && solution_of(st.elems, y) is None && declared(fin.elems, y) by {
            assert(fin.elems.contains(Element::Exist(y)));
        }
    }
}

/// Applying a context whose solutions new since `base` are monotypes without
/// type variables, over variables with property `ok` unsolved in `base`, to
/// such a type gives such a type, whose variables have property `ok`.
proof fn lemma_apply_chain(base: Seq<Element>, elems: Seq<Element>, t: Type, fuel: nat, ok: spec_fn(usize) -> bool)
    requires
        forall|x: usize| solution_of(base, x) is None && #[trigger] solution_of(elems, x) is Some ==> ({
            let u = solution_of(elems, x).unwrap();
            var_free(u) && forall|y: usize| #[trigger] free_exists(u).contains(y) ==> ok(y) && solution_of(
                base,
                y,
            ) is None
        }),
        var_free(t),
        forall|y: usize| #[trigger] free_exists(t).contains(y) ==> ok(y) && solution_of(base, y) is None,
        apply_fuel(elems, t, fuel) is Some,
    ensures
        var_free(apply_fuel(elems, t, fuel).unwrap()),
        forall|y: usize| #[trigger] free_exists(apply_fuel(elems, t, fuel).unwrap()).contains(y) ==> ok(y),
    decreases fuel, t,
{
    match t {
        Type::Arrow(p, q) => {
            assert forall|y: usize| #[trigger] free_exists(*p).contains(y) implies ok(y) && solution_of(base, y) is None by {
                lemma_exists_of_arrow(*p, *q, y);
            }
            assert forall|y: usize| #[trigger] free_exists(*q).contains(y) implies ok(y) && solution_of(base, y) is None by {
                lemma_exists_of_arrow(*p, *q, y);
            }
            lemma_apply_chain(base, elems, *p, fuel, ok);
            lemma_apply_chain(base, elems, *q, fuel, ok);
            let x = apply_fuel(elems, *p, fuel).unwrap();
            let z = apply_fuel(elems, *q, fuel).unwrap();
            assert forall|y: usize| #[trigger] free_exists(apply_fuel(elems, t, fuel).unwrap()).contains(y) implies ok(y) by {
                lemma_exists_of_arrow(x, z, y);
            }
        },
        Type::Exist(n) => {
            lemma_exists_of_exist(n, n);
            match solution_of(elems, n) {
                Some(u) => {
                    lemma_apply_chain(base, elems, u, (fuel - 1) as nat, ok);
                },
                None => {
                    assert forall|y: usize| #[trigger] free_exists(apply_fuel(elems, t, fuel).unwrap()).contains(y) implies ok(y) by {
                        lemma_exists_of_exist(n, y);
                    }
                },
            }
        },
        _ => {
            assert(free_exists(t) =~= Seq::<usize>::empty());
        },
    }
}

/// Two runs in a row, the second touching only what the first may touch,
/// together do what the first may do.
proof fn lemma_instance_trans(
    s0: CtxState,
    s1: CtxState,
    s2: CtxState,
    al0: usize,
    t0: Type,
    al1: usize,
    t1: Type,
)
    requires
        instance_of(s0, s1, al0, t0),
        instance_of(s1, s2, al1, t1),
        forall|y: usize| #[trigger] may_touch(s1, al1, t1, y) ==> may_touch(s0, al0, t0, y),
    ensures
        instance_of(s0, s2, al0, t0),
{
    assert forall|y: usize| solution_of(s1.elems, y) is None implies #[trigger] solution_of(s0.elems, y) is None by {
        if solution_of(s0.elems, y) is Some && solution_of(s1.elems, y) != solution_of(s0.elems, y) {
            assert(new_solution(s0, s1, al0, t0, y));
        }
    }
    assert forall|m: usize| !may_touch(s0, al0, t0, m) implies #[trigger] solution_of(s2.elems, m) == solution_of(
        s0.elems,
        m,
    ) && (s0.elems.contains(Element::Exist(m)) ==> s2.elems.contains(Element::Exist(m))) by {
        assert(!may_touch(s1, al1, t1, m));
        assert(solution_of(s1.elems, m) == solution_of(s0.elems, m));
        assert(solution_of(s2.elems, m) == solution_of(s1.elems, m));
    }
    assert forall|x: usize| #[trigger] solution_of(s2.elems, x) != solution_of(s0.elems, x) implies new_solution(
        s0,
        s2,
        al0,
        t0,
        x,
    ) by {
        if solution_of(s2.elems, x) != solution_of(s1.elems, x) {
            assert(new_solution(s1, s2, al1, t1, x));
            let u = solution_of(s2.elems, x).unwrap();
            assert forall|y: usize| #[trigger] free_exists(u).contains(y) implies may_touch(s0, al0, t0, y)
                && solution_of(s0.elems, y) is None && declared(s2.elems, y) by {
                assert(may_touch(s1, al1, t1, y));
                assert(solution_of(s1.elems, y) is None);
            }
        } else {
            assert(new_solution(s0, s1, al0, t0, x));
            let u = solution_of(s2.elems, x).unwrap();
            assert forall|y: usize| #[trigger] free_exists(u).contains(y) implies may_touch(s0, al0, t0, y)
                && solution_of(s0.elems, y) is None && declared(s2.elems, y) by {
                assert(declared(s1.elems, y));
            }
        }
    }
}

/// Articulating `alpha` into a function type between two fresh variables,
/// before instantiating it to `t1 -> t2`: the first fresh variable can be
/// instantiated to `t1`, the second stays unsolved, and the variables of `t2`
/// stay declared and unsolved.
proof fn lemma_articulate(st: CtxState, alpha: usize, t1: Type, t2: Type)
    requires
        can_instantiate(st, alpha, Type::Arrow(Box::new(t1), Box::new(t2))),
        st.ev + 2 <= usize::MAX,
    ensures
        ({
            let a = Type::Arrow(Box::new(t1), Box::new(t2));
            let a1 = st.ev as usize;
            let a2 = (st.ev + 1) as usize;
            let s2 = st_fresh(st, 2);
            &&& splice(s2.elems, alpha, articulation(alpha, a1, a2)) is Some
            &&& ({
                let s3 = st_with(s2, splice(s2.elems, alpha, articulation(alpha, a1, a2)).unwrap());
                &&& instance_of(st, s3, alpha, a)
                &&& well_ordered(s3.elems)
                &&& solution_of(s3.elems, alpha) == Some(
                    Type::Arrow(Box::new(Type::Exist(a1)), Box::new(Type::Exist(a2))),
                )
                &&& can_instantiate(s3, a1, t1)
                &&& type_below(t1, s3.ev)
                &&& unsolved(s3.elems, a2)
                &&& forall|y: usize| #[trigger] free_exists(t2).contains(y) ==> solution_of(s3.elems, y) is None
                    && declared(s3.elems, y) && y < st.ev
            })
        }),
{
    let a = Type::Arrow(Box::new(t1), Box::new(t2));
    let a1 = st.ev as usize;
    let a2 = (st.ev + 1) as usize;
    let s2 = st_fresh(st, 2);
    let ins = articulation(alpha, a1, a2);
    let arr = Type::Arrow(Box::new(Type::Exist(a1)), Box::new(Type::Exist(a2)));
    lemma_instantiable_below(st, alpha, a);
    lemma_found(st.elems, alpha);
    let idx = last_exist(st.elems, alpha).unwrap();
    lemma_replace(st.elems, idx, alpha, ins);
    let s3 = st_with(s2, splice(s2.elems, alpha, ins).unwrap());
    lemma_names_articulation(st, alpha);
    lemma_articulation_solution(alpha, a1, a2, a1);
    lemma_articulation_solution(alpha, a1, a2, a2);
    lemma_articulation_solution(alpha, a1, a2, alpha);
    assert forall|y: usize| y >= st.ev implies #[trigger] solution_of(st.elems, y) is None by {
        if solution_of(st.elems, y) is Some {
            lemma_declared_is_below(st.elems, y, st.ev);
        }
    }
    assert forall|y: usize| #[trigger] declared(st.elems, y) implies declared(s3.elems, y) by {
        lemma_articulation_solution(alpha, a1, a2, y);
    }
    assert forall|m: usize| !may_touch(st, alpha, a, m) implies #[trigger] solution_of(s3.elems, m) == solution_of(
        st.elems,
        m,
    ) && (st.elems.contains(Element::Exist(m)) ==> s3.elems.contains(Element::Exist(m))) by {
        lemma_articulation_solution(alpha, a1, a2, m);
    }
    assert forall|x: usize| #[trigger] solution_of(s3.elems, x) != solution_of(st.elems, x) implies new_solution(
        st,
        s3,
        alpha,
        a,
        x,
    ) by {
        lemma_articulation_solution(alpha, a1, a2, x);
        assert(x == alpha);
        assert(solution_of(s3.elems, x) == Some(arr));
        assert(s3.elems.contains(Element::Exist(a1)));
        assert(s3.elems.contains(Element::Exist(a2)));
        assert(var_free(Type::Exist(a1)) && var_free(Type::Exist(a2)));
        assert(var_free(arr));
        assert forall|y: usize| #[trigger] free_exists(arr).contains(y) implies may_touch(st, alpha, a, y)
            && solution_of(st.elems, y) is None && declared(s3.elems, y) by {
            lemma_exists_of_arrow(Type::Exist(a1), Type::Exist(a2), y);
            lemma_exists_of_exist(a1, y);
            lemma_exists_of_exist(a2, y);
            assert(y == a1 || y == a2);
            assert(y >= st.ev);
        }
    }
    assert(instance_of(st, s3, alpha, a));
    assert forall|n: usize| #[trigger] free_exists(t1).contains(n) implies n != a1 && unsolved(s3.elems, n) by {
        lemma_exists_of_arrow(t1, t2, n);
        lemma_articulation_solution(alpha, a1, a2, n);
    }
    assert forall|y: usize| #[trigger] free_exists(t2).contains(y) implies solution_of(s3.elems, y) is None
        && declared(s3.elems, y) && y < st.ev by {
        lemma_exists_of_arrow(t1, t2, y);
        lemma_articulation_solution(alpha, a1, a2, y);
    }
    assert(ins[0] == Element::Exist(a2) && ins[1] == Element::Exist(a1) && ins[2] == Element::Solved(alpha, arr));
    assert(declares(ins[2], alpha));
    assert forall|i: int, j: int, y: usize|
        0 <= i < j < ins.len() && #[trigger] declares(ins[i], y) implies !#[trigger] declares(ins[j], y) by {}
    assert forall|k: int, j: int, y: usize|
        0 <= k < ins.len() && 0 <= j < st.elems.len() && #[trigger] declares(ins[k], y) && y != alpha
            implies !#[trigger] declares(st.elems[j], y) by {
        if declares(st.elems[j], y) {
            assert(names_below(st.elems[j], st.ev));
        }
    }
    assert forall|k: int, y: usize| 0 <= k < ins.len() && #[trigger] mentions(ins[k], y) implies (exists|j: int|
        0 <= j < idx && #[trigger] declares(st.elems[j], y)) || (exists|k2: int|
        0 <= k2 < k && #[trigger] declares(ins[k2], y)) by {
        lemma_exists_of_arrow(Type::Exist(a1), Type::Exist(a2), y);
        lemma_exists_of_exist(a1, y);
        lemma_exists_of_exist(a2, y);
        if y == a1 {
            assert(declares(ins[1], y));
        } else {
            assert(declares(ins[0], y));
        }
    }
    lemma_replace_ordered(st.elems, idx, alpha, ins, 2);
    lemma_instantiable_below(s3, a1, t1);
}

/// After the first fresh variable was instantiated to `t1`, the codomain
/// `t2`, applied, can be instantiated to by the second, and its variables
/// are those of `t2` or ones that instantiation may touch.
proof fn lemma_codomain(st: CtxState, t2: Type, s3: CtxState, t1: Type, s4: CtxState, g: nat)
    requires
        st.ev + 2 <= usize::MAX,
        s3.ev == st.ev + 2,
        var_free(t2),
        unsolved(s3.elems, (st.ev + 1) as usize),
        forall|y: usize| #[trigger] free_exists(t2).contains(y) ==> solution_of(s3.elems, y) is None && declared(
            s3.elems,
            y,
        ) && y < st.ev,
        forall|n: usize| #[trigger] free_exists(t1).contains(n) ==> n < st.ev,
        instance_of(s3, s4, st.ev as usize, t1),
        all_names_below(s4.elems, s4.ev),
        well_ordered(s4.elems),
        apply_fuel(s4.elems, t2, g) is Some,
    ensures
        ({
            let t2a = apply_fuel(s4.elems, t2, g).unwrap();
            &&& can_instantiate(s4, (st.ev + 1) as usize, t2a)
            &&& type_below(t2a, s4.ev)
            &&& forall|y: usize| #[trigger] free_exists(t2a).contains(y) ==> free_exists(t2).contains(y) || may_touch(
                s3,
                st.ev as usize,
                t1,
                y,
            )
        }),
{
    let a1 = st.ev as usize;
    let a2 = (st.ev + 1) as usize;
    let t2a = apply_fuel(s4.elems, t2, g).unwrap();
    let ok = |y: usize| (free_exists(t2).contains(y) || may_touch(s3, a1, t1, y)) && declared(s4.elems, y);
    assert forall|x: usize| solution_of(s3.elems, x) is None && #[trigger] solution_of(s4.elems, x) is Some implies ({
        let u = solution_of(s4.elems, x).unwrap();
        var_free(u) && forall|y: usize| #[trigger] free_exists(u).contains(y) ==> ok(y) && solution_of(
            s3.elems,
            y,
        ) is None
    }) by {
        assert(new_solution(s3, s4, a1, t1, x));
    }
    lemma_apply_chain(s3.elems, s4.elems, t2, g, ok);
    lemma_apply_fully_applied(s4.elems, t2, g);
    assert(!may_touch(s3, a1, t1, a2));
    assert forall|n: usize| #[trigger] free_exists(t2a).contains(n) implies n != a2 && unsolved(s4.elems, n) by {
        assert(ok(n));
    }
    assert forall|y: usize| #[trigger] free_exists(t2a).contains(y) implies free_exists(t2).contains(y) || may_touch(
        s3,
        a1,
        t1,
        y,
    ) by {
        assert(ok(y));
    }
    lemma_instantiable_below(s4, a2, t2a);
}

/// The element declares existential variable `y`, solved or not.
pub open spec fn declares(e: Element, y: usize) -> bool {
    match e {
        Element::Exist(n) => n == y,
        Element::Solved(n, _) => n == y,
        _ => false,
    }
}

/// The element is a solution that mentions existential variable `y`.
pub open spec fn mentions(e: Element, y: usize) -> bool {
    match e {
        Element::Solved(_, u) => free_exists(u).contains(y),
        _ => false,
    }
}

/// Each existential variable is declared at most once.
pub open spec fn declared_once(elems: Seq<Element>) -> bool {
    forall|i: int, j: int, y: usize|
        0 <= i < j < elems.len() && #[trigger] declares(elems[i], y) ==> !#[trigger] declares(elems[j], y)
}

/// The context is ordered: each existential variable is declared once, and
/// a solution mentions only variables declared before it.
pub open spec fn well_ordered(elems: Seq<Element>) -> bool {
    &&& declared_once(elems)
    &&& forall|i: int, y: usize|
        0 <= i < elems.len() && #[trigger] mentions(elems[i], y) ==> exists|j: int|
            0 <= j < i && #[trigger] declares(elems[j], y)
}

proof fn lemma_solution_at(elems: Seq<Element>, j: int, y: usize, u: Type)
    requires
        declared_once(elems),
        0 <= j < elems.len(),
        elems[j] == Element::Solved(y, u),
    ensures
        solution_of(elems, y) == Some(u),
    decreases elems.len(),
{
    if j > 0 {
        let rest = elems.subrange(1, elems.len() as int);
        assert(declares(elems[j], y));
        assert(!declares(elems[0], y));
        assert forall|i: int, k: int, z: usize|
            0 <= i < k < rest.len() && #[trigger] declares(rest[i], z) implies !#[trigger] declares(rest[k], z) by {
            assert(rest[i] == elems[i + 1]);
            assert(rest[k] == elems[k + 1]);
        }
        assert(rest[j - 1] == elems[j]);
        lemma_solution_at(rest, j - 1, y, u);
    }
}

proof fn lemma_no_solution_of_open(elems: Seq<Element>, j: int, y: usize)
    requires
        declared_once(elems),
        0 <= j < elems.len(),
        elems[j] == Element::Exist(y),
    ensures
        solution_of(elems, y) is None,
{
    lemma_solution_is_declared(elems, y);
    if let Some(u) = solution_of(elems, y) {
        let k = choose|k: int| 0 <= k < elems.len() && elems[k] == Element::Solved(y, u);
        assert(declares(elems[k], y) && declares(elems[j], y));
        assert(k != j);
    }
}

/// In a well-ordered context, applying to a type whose variables are all
/// declared below position `k` finishes.
proof fn lemma_ordered_applies(elems: Seq<Element>, k: int, t: Type)
    requires
        well_ordered(elems),
        0 <= k <= elems.len(),
        forall|y: usize| #[trigger] free_exists(t).contains(y) ==> exists|j: int| 0 <= j < k && #[trigger] declares(elems[j], y),
    ensures
        crate::context::apply_terminates(elems, t),
    decreases k, t,
{
    match t {
        Type::Arrow(p, q) => {
            assert forall|y: usize| #[trigger] free_exists(*p).contains(y) implies exists|j: int|
                0 <= j < k && #[trigger] declares(elems[j], y) by {
                lemma_exists_of_arrow(*p, *q, y);
            }
            assert forall|y: usize| #[trigger] free_exists(*q).contains(y) implies exists|j: int|
                0 <= j < k && #[trigger] declares(elems[j], y) by {
                lemma_exists_of_arrow(*p, *q, y);
            }
            lemma_ordered_applies(elems, k, *p);
            lemma_ordered_applies(elems, k, *q);
            let f1 = choose|f: nat| #[trigger] apply_fuel(elems, *p, f) is Some;
            let f2 = choose|f: nat| #[trigger] apply_fuel(elems, *q, f) is Some;
            let f = if f1 <= f2 { f2 } else { f1 };
            crate::context::lemma_apply_fuel_mono(elems, *p, f1, f);
            crate::context::lemma_apply_fuel_mono(elems, *q, f2, f);
            assert(apply_fuel(elems, t, f) is Some);
        },
        Type::Univ(p) => {
            assert(free_exists(t) == free_exists(*p));
            lemma_ordered_applies(elems, k, *p);
            let f = choose|f: nat| #[trigger] apply_fuel(elems, *p, f) is Some;
            assert(apply_fuel(elems, t, f) is Some);
        },
        Type::Exist(y) => {
            lemma_exists_of_exist(y, y);
            let j = choose|j: int| 0 <= j < k && #[trigger] declares(elems[j], y);
            match elems[j] {
                Element::Solved(n, u) => {
                    lemma_solution_at(elems, j, y, u);
                    assert forall|z: usize| #[trigger] free_exists(u).contains(z) implies exists|i: int|
                        0 <= i < j && #[trigger] declares(elems[i], z) by {
                        assert(mentions(elems[j], z));
                    }
                    lemma_ordered_applies(elems, j, u);
                    let f = choose|f: nat| #[trigger] apply_fuel(elems, u, f) is Some;
                    assert(apply_fuel(elems, t, f + 1) is Some);
                },
                _ => {
                    lemma_no_solution_of_open(elems, j, y);
                    assert(apply_fuel(elems, t, 0) is Some);
                },
            }
        },
        _ => {
            assert(apply_fuel(elems, t, 0) is Some);
        },
    }
}

/// In a well-ordered context, following solutions never runs in a cycle.
pub proof fn lemma_well_ordered_acyclic(elems: Seq<Element>)
    requires
        well_ordered(elems),
    ensures
        crate::laws::solutions_acyclic(elems),
{
    assert forall|n: usize| #[trigger] crate::context::apply_terminates(elems, Type::Exist(n)) by {
        lemma_solution_is_declared(elems, n);
        if let Some(u) = solution_of(elems, n) {
            let j = choose|j: int| 0 <= j < elems.len() && elems[j] == Element::Solved(n, u);
            lemma_exists_of_exist(n, n);
            assert forall|y: usize| #[trigger] free_exists(Type::Exist(n)).contains(y) implies exists|i: int|
                0 <= i < elems.len() && #[trigger] declares(elems[i], y) by {
                lemma_exists_of_exist(n, y);
                assert(declares(elems[j], y));
            }
            lemma_ordered_applies(elems, elems.len() as int, Type::Exist(n));
        } else {
            assert(apply_fuel(elems, Type::Exist(n), 0) is Some);
        }
    }
}

/// Replacing the `Exist(x)` at `idx` of a well-ordered context by a block
/// that declares `x`, declares nothing else the context declares, declares
/// nothing twice, and whose solutions mention only variables declared
/// before them, keeps the context well-ordered.
proof fn lemma_replace_ordered(elems: Seq<Element>, idx: int, x: usize, ins: Seq<Element>, kx: int)
    requires
        well_ordered(elems),
        0 <= idx < elems.len(),
        elems[idx] == Element::Exist(x),
        0 <= kx < ins.len(),
        declares(ins[kx], x),
        declared_once(ins),
        forall|k: int, j: int, y: usize|
            0 <= k < ins.len() && 0 <= j < elems.len() && #[trigger] declares(ins[k], y) && y != x
                ==> !#[trigger] declares(elems[j], y),
        forall|k: int, y: usize|
            0 <= k < ins.len() && #[trigger] mentions(ins[k], y) ==> (exists|j: int|
                0 <= j < idx && #[trigger] declares(elems[j], y)) || (exists|k2: int|
                0 <= k2 < k && #[trigger] declares(ins[k2], y)),
    ensures
        well_ordered(elems.subrange(0, idx) + ins + elems.subrange(idx + 1, elems.len() as int)),
{
    let n = elems.len() as int;
    let l = ins.len() as int;
    let new = elems.subrange(0, idx) + ins + elems.subrange(idx + 1, n);
    assert(new.len() == n + l - 1);
    assert forall|i: int| 0 <= i < new.len() implies #[trigger] new[i] == (if i < idx {
        elems[i]
    } else if i < idx + l {
        ins[i - idx]
    } else {
        elems[i - l + 1]
    }) by {}
    assert forall|i: int, j: int, y: usize|
        0 <= i < j < new.len() && #[trigger] declares(new[i], y) implies !#[trigger] declares(new[j], y) by {
        if declares(new[j], y) {
            if i < idx {
                if j < idx {
                } else if j < idx + l {
                    if y == x {
                        assert(declares(elems[idx], y));
                    } else {
                        assert(declares(ins[j - idx], y));
                    }
                } else {
                    assert(declares(elems[j - l + 1], y));
                }
            } else if i < idx + l {
                if j < idx + l {
                    assert(declares(ins[i - idx], y));
                    assert(declares(ins[j - idx], y));
                } else {
                    assert(declares(elems[j - l + 1], y));
                    if y == x {
                        assert(declares(elems[idx], y));
                    } else {
                        assert(declares(ins[i - idx], y));
                    }
                }
            } else {
                assert(declares(elems[i - l + 1], y));
                assert(declares(elems[j - l + 1], y));
            }
        }
    }
    assert forall|i: int, y: usize| 0 <= i < new.len() && #[trigger] mentions(new[i], y) implies exists|j: int|
        0 <= j < i && #[trigger] declares(new[j], y) by {
        if i < idx {
            assert(mentions(elems[i], y));
            let j = choose|j: int| 0 <= j < i && #[trigger] declares(elems[j], y);
            assert(declares(new[j], y));
        } else if i < idx + l {
            let k = i - idx;
            assert(mentions(ins[k], y));
            if exists|j: int| 0 <= j < idx && #[trigger] declares(elems[j], y) {
                let j = choose|j: int| 0 <= j < idx && #[trigger] declares(elems[j], y);
                assert(declares(new[j], y));
            } else {
                let k2 = choose|k2: int| 0 <= k2 < k && #[trigger] declares(ins[k2], y);
                assert(declares(new[idx + k2], y));
            }
        } else {
            let i0 = i - l + 1;
            assert(mentions(elems[i0], y));
            let j0 = choose|j: int| 0 <= j < i0 && #[trigger] declares(elems[j], y);
            if j0 < idx {
                assert(declares(new[j0], y));
            } else if j0 == idx {
                assert(y == x);
                assert(declares(new[idx + kx], y));
            } else {
                assert(declares(new[j0 + l - 1], y));
            }
        }
    }
}

/// Every existential variable of a well-formed type without type variables
/// is declared.
proof fn lemma_wf_declared(elems: Seq<Element>, t: Type, y: usize)
    requires
        var_free(t),
        wf_type(elems, t),
        free_exists(t).contains(y),
    ensures
        elems.contains(Element::Exist(y)) || solution_of(elems, y) is Some,
    decreases t,
{
    match t {
        Type::Arrow(p, q) => {
            lemma_exists_of_arrow(*p, *q, y);
            if free_exists(*p).contains(y) {
                lemma_wf_declared(elems, *p, y);
            } else {
                lemma_wf_declared(elems, *q, y);
            }
        },
        Type::Exist(n) => {
            lemma_exists_of_exist(n, y);
        },
        _ => {
            assert(free_exists(t) =~= Seq::<usize>::empty());
        },
    }
}

/// Applying the context to `t` and to `u` gives the same type, wherever
/// both finish.
pub open spec fn same_application(elems: Seq<Element>, t: Type, u: Type) -> bool {
    forall|f1: nat, f2: nat| #[trigger] apply_fuel(elems, t, f1) is Some && #[trigger] apply_fuel(elems, u, f2) is Some
        ==> apply_fuel(elems, t, f1) == apply_fuel(elems, u, f2)
}

/// Every solution of `e1` is a solution of `e2`, unchanged.
pub open spec fn solutions_kept(e1: Seq<Element>, e2: Seq<Element>) -> bool {
    forall|x: usize| #[trigger] solution_of(e1, x) is Some ==> solution_of(e2, x) == solution_of(e1, x)
}

/// A run that may touch only unsolved variables keeps every solution.
proof fn lemma_instance_keeps_solutions(st: CtxState, fin: CtxState, alpha: usize, a: Type)
    requires
        can_instantiate(st, alpha, a),
        instance_of(st, fin, alpha, a),
    ensures
        solutions_kept(st.elems, fin.elems),
{
    assert forall|x: usize| #[trigger] solution_of(st.elems, x) is Some implies solution_of(fin.elems, x)
        == solution_of(st.elems, x) by {
        lemma_declared_is_below(st.elems, x, st.ev);
        assert(!may_touch(st, alpha, a, x));
    }
}

/// Applying a context that has fewer solutions finishes where applying one
/// with more finishes.
proof fn lemma_apply_fewer(e1: Seq<Element>, e2: Seq<Element>, t: Type, f: nat)
    requires
        solutions_kept(e1, e2),
        apply_fuel(e2, t, f) is Some,
    ensures
        apply_fuel(e1, t, f) is Some,
    decreases f, t,
{
    match t {
        Type::Arrow(p, q) => {
            lemma_apply_fewer(e1, e2, *p, f);
            lemma_apply_fewer(e1, e2, *q, f);
        },
        Type::Univ(p) => {
            lemma_apply_fewer(e1, e2, *p, f);
        },
        Type::Exist(n) => {
            if let Some(u) = solution_of(e1, n) {
                lemma_apply_fewer(e1, e2, u, (f - 1) as nat);
            }
        },
        _ => {},
    }
}

/// Applying a context that keeps the solutions of `e1` to what applying
/// `e1` gave is the same as applying it to the original type.
proof fn lemma_apply_stable(e1: Seq<Element>, e2: Seq<Element>, t: Type, f: nat, f2: nat)
    requires
        solutions_kept(e1, e2),
        apply_fuel(e1, t, f) is Some,
        apply_fuel(e2, t, f2) is Some,
    ensures
        apply_fuel(e2, apply_fuel(e1, t, f).unwrap(), f2) == apply_fuel(e2, t, f2),
    decreases f, t,
{
    match t {
        Type::Arrow(p, q) => {
            lemma_apply_stable(e1, e2, *p, f, f2);
            lemma_apply_stable(e1, e2, *q, f, f2);
        },
        Type::Univ(p) => {
            lemma_apply_stable(e1, e2, *p, f, f2);
        },
        Type::Exist(n) => {
            if let Some(u) = solution_of(e1, n) {
                let g2 = (f2 - 1) as nat;
                lemma_apply_stable(e1, e2, u, (f - 1) as nat, g2);
                crate::context::lemma_apply_fuel_mono(e2, apply_fuel(e1, u, (f - 1) as nat).unwrap(), g2, f2);
            }
        },
        _ => {},
    }
}

/// Where `e2` keeps the solutions of `e1`, two types with the same
/// application in `e1` have the same application in `e2`.
proof fn lemma_same_application_kept(e1: Seq<Element>, e2: Seq<Element>, t: Type, u: Type)
    requires
        solutions_kept(e1, e2),
        same_application(e1, t, u),
    ensures
        same_application(e2, t, u),
{
    assert forall|f1: nat, f2: nat| #[trigger] apply_fuel(e2, t, f1) is Some && #[trigger] apply_fuel(e2, u, f2) is Some
        implies apply_fuel(e2, t, f1) == apply_fuel(e2, u, f2) by {
        lemma_apply_fewer(e1, e2, t, f1);
        lemma_apply_fewer(e1, e2, u, f2);
        lemma_apply_stable(e1, e2, t, f1, f1);
        lemma_apply_stable(e1, e2, u, f2, f2);
        let r = apply_fuel(e1, t, f1).unwrap();
        assert(apply_fuel(e1, u, f2) == Some(r));
        crate::context::lemma_apply_fuel_unique(e2, r, f1, f2);
    }
}

/// A solved variable has the same application as its solution.
proof fn lemma_solved_same(elems: Seq<Element>, x: usize, u: Type)
    requires
        solution_of(elems, x) == Some(u),
    ensures
        same_application(elems, Type::Exist(x), u),
        same_application(elems, u, Type::Exist(x)),
{
    assert forall|f1: nat, f2: nat| #[trigger] apply_fuel(elems, Type::Exist(x), f1) is Some && #[trigger] apply_fuel(
        elems,
        u,
        f2,
    ) is Some implies apply_fuel(elems, Type::Exist(x), f1) == apply_fuel(elems, u, f2) by {
        crate::context::lemma_apply_fuel_unique(elems, u, (f1 - 1) as nat, f2);
    }
    assert forall|f1: nat, f2: nat| #[trigger] apply_fuel(elems, u, f1) is Some && #[trigger] apply_fuel(
        elems,
        Type::Exist(x),
        f2,
    ) is Some implies apply_fuel(elems, u, f1) == apply_fuel(elems, Type::Exist(x), f2) by {
        crate::context::lemma_apply_fuel_unique(elems, u, f1, (f2 - 1) as nat);
    }
}

/// A variable solved to a function type between two variables has the same
/// application as a function type whose parts have the same applications
/// as those two.
proof fn lemma_arrow_same(e: Seq<Element>, alpha: usize, a1: usize, a2: usize, t1: Type, t2: Type, t2b: Type)
    requires
        solution_of(e, alpha) == Some(Type::Arrow(Box::new(Type::Exist(a1)), Box::new(Type::Exist(a2)))),
        same_application(e, Type::Exist(a1), t1),
        same_application(e, Type::Exist(a2), t2b),
        forall|f: nat| #[trigger] apply_fuel(e, t2, f) is Some ==> apply_fuel(e, t2b, f) == apply_fuel(e, t2, f),
    ensures
        same_application(e, Type::Exist(alpha), Type::Arrow(Box::new(t1), Box::new(t2))),
{
    let a = Type::Arrow(Box::new(t1), Box::new(t2));
    assert forall|f1: nat, f2: nat| #[trigger] apply_fuel(e, Type::Exist(alpha), f1) is Some && #[trigger] apply_fuel(
        e,
        a,
        f2,
    ) is Some implies apply_fuel(e, Type::Exist(alpha), f1) == apply_fuel(e, a, f2) by {
        let g1 = (f1 - 1) as nat;
        let arr = Type::Arrow(Box::new(Type::Exist(a1)), Box::new(Type::Exist(a2)));
        assert(f1 > 0);
        assert(apply_fuel(e, Type::Exist(alpha), f1) == apply_fuel(e, arr, g1));
        assert(apply_fuel(e, Type::Exist(a1), g1) is Some);
        assert(apply_fuel(e, Type::Exist(a2), g1) is Some);
        assert(apply_fuel(e, t1, f2) is Some);
        assert(apply_fuel(e, t2, f2) is Some);
        assert(apply_fuel(e, t2b, f2) == apply_fuel(e, t2, f2));
        assert(apply_fuel(e, Type::Exist(a1), g1) == apply_fuel(e, t1, f2));
        assert(apply_fuel(e, Type::Exist(a2), g1) == apply_fuel(e, t2b, f2));
    }
}

/// Instantiation solves, on the left: from a context that can instantiate
/// `alpha` to `a`, a finished run of `alpha <: a` succeeds, and does only
/// what instantiating `alpha` to `a` may do (see `instance_of`).
pub proof fn lemma_inst_l_solves(fuel: nat, st: CtxState, alpha: usize, a: Type)
    requires
        can_instantiate(st, alpha, a),
    ensures
        inst_l_run(fuel, st, alpha, a) matches Run::Done(res, fin) ==> res is Ok && instance_of(st, fin, alpha, a)
            && same_application(fin.elems, Type::Exist(alpha), a) && well_ordered(fin.elems),
    decreases fuel,
{
    if fuel > 0 {
        let g = (fuel - 1) as nat;
        lemma_found(st.elems, alpha);
        lemma_var_free_monotype(a);
        let idx = last_exist(st.elems, alpha).unwrap();
        let l = st.elems.subrange(0, idx);
        let r = st.elems.subrange(idx + 1, st.elems.len() as int);
        if wf_type(l, a) {
            assert forall|y: usize| #[trigger] free_exists(a).contains(y) implies exists|j: int|
                0 <= j < idx && #[trigger] declares(st.elems[j], y) by {
                lemma_wf_declared(l, a, y);
                if l.contains(Element::Exist(y)) {
                    let j = choose|j: int| 0 <= j < l.len() && l[j] == Element::Exist(y);
                    assert(declares(st.elems[j], y));
                } else {
                    lemma_solution_is_declared(l, y);
                    let t = solution_of(l, y).unwrap();
                    let j = choose|j: int| 0 <= j < l.len() && l[j] == Element::Solved(y, t);
                    assert(declares(st.elems[j], y));
                }
            }
            lemma_one_solution(st, alpha, a, alpha, a);
            assert(l.push(Element::Solved(alpha, a)) + r =~= l + seq![Element::Solved(alpha, a)] + r);
            lemma_solved_same(l + seq![Element::Solved(alpha, a)] + r, alpha, a);
        } else {
            match a {
                Type::Arrow(t1, t2) => {
                    if st.ev + 2 <= usize::MAX {
                        let a1 = st.ev as usize;
                        let a2 = (st.ev + 1) as usize;
                        let s2 = st_fresh(st, 2);
                        lemma_articulate(st, alpha, *t1, *t2);
                        lemma_instantiable_below(st, alpha, a);
                        let s3 = st_with(s2, splice(s2.elems, alpha, articulation(alpha, a1, a2)).unwrap());
                        assert forall|n: usize| #[trigger] free_exists(*t1).contains(n) implies n < st.ev by {
                            lemma_exists_of_arrow(*t1, *t2, n);
                        }
                        lemma_inst_r_solves(g, s3, *t1, a1);
                        lemma_inst_r_names_below(g, s3, *t1, a1);
                        if let Run::Done(Ok(_), s4) = inst_r_run(g, s3, *t1, a1) {
                            if let Some(t2a) = apply_fuel(s4.elems, *t2, g) {
                                lemma_codomain(st, *t2, s3, *t1, s4, g);
                                lemma_inst_l_solves(g, s4, a2, t2a);
                                if let Run::Done(Ok(_), s5) = inst_l_run(g, s4, a2, t2a) {
                                    assert forall|y: usize| #[trigger] may_touch(s3, a1, *t1, y) implies may_touch(
                                        st,
                                        alpha,
                                        a,
                                        y,
                                    ) by {
                                        lemma_exists_of_arrow(*t1, *t2, y);
                                    }
                                    lemma_instance_trans(st, s3, s4, alpha, a, a1, *t1);
                                    assert forall|y: usize| #[trigger] may_touch(s4, a2, t2a, y) implies may_touch(
                                        st,
                                        alpha,
                                        a,
                                        y,
                                    ) by {
                                        lemma_exists_of_arrow(*t1, *t2, y);
                                        if free_exists(t2a).contains(y) && !free_exists(*t2).contains(y) {
                                            assert(may_touch(s3, a1, *t1, y));
                                        }
                                    }
                                    lemma_instance_trans(st, s4, s5, alpha, a, a2, t2a);
                                    lemma_instance_keeps_solutions(s3, s4, a1, *t1);
                                    lemma_instance_keeps_solutions(s4, s5, a2, t2a);
                                    lemma_same_application_kept(s4.elems, s5.elems, Type::Exist(a1), *t1);
                                    assert forall|f: nat| #[trigger] apply_fuel(s5.elems, *t2, f) is Some implies apply_fuel(
                                        s5.elems,
                                        t2a,
                                        f,
                                    ) == apply_fuel(s5.elems, *t2, f) by {
                                        lemma_apply_stable(s4.elems, s5.elems, *t2, g, f);
                                    }
                                    lemma_arrow_same(s5.elems, alpha, a1, a2, *t1, *t2, t2a);
                                }
                            }
                        }
                    }
                },
                Type::Exist(beta) => {
                    lemma_exists_of_exist(beta, beta);
                    lemma_exists_of_exist(beta, alpha);
                    lemma_found(st.elems, beta);
                    let jb = last_exist(st.elems, beta).unwrap();
                    if jb < idx {
                        assert(l[jb] == Element::Exist(beta));
                        assert(l.contains(Element::Exist(beta)));
                    }
                    assert(jb != idx);
                    assert forall|y: usize| #[trigger] free_exists(Type::Exist(alpha)).contains(y) implies exists|j: int|
                        0 <= j < jb && #[trigger] declares(st.elems[j], y) by {
                        lemma_exists_of_exist(alpha, y);
                        assert(declares(st.elems[idx], y));
                    }
                    assert forall|y: usize| #[trigger] free_exists(Type::Exist(alpha)).contains(y) implies may_touch(
                        st,
                        alpha,
                        a,
                        y,
                    ) && solution_of(st.elems, y) is None && st.elems.contains(Element::Exist(y)) && y != beta by {
                        lemma_exists_of_exist(alpha, y);
                    }
                    lemma_one_solution(st, alpha, a, beta, Type::Exist(alpha));
                    let ins = seq![Element::Solved(beta, Type::Exist(alpha))];
                    lemma_found(st.elems, beta);
                    let jdx = last_exist(st.elems, beta).unwrap();
                    lemma_solved_same(
                        st.elems.subrange(0, jdx) + ins + st.elems.subrange(jdx + 1, st.elems.len() as int),
                        beta,
                        Type::Exist(alpha),
                    );
                },
                _ => {},
            }
        }
    }
}

/// Instantiation solves, on the right: from a context that can instantiate
/// `alpha` to `a`, a finished run of `a <: alpha` succeeds, and does only
/// what instantiating `alpha` to `a` may do (see `instance_of`).
pub proof fn lemma_inst_r_solves(fuel: nat, st: CtxState, a: Type, alpha: usize)
    requires
        can_instantiate(st, alpha, a),
    ensures
        inst_r_run(fuel, st, a, alpha) matches Run::Done(res, fin) ==> res is Ok && instance_of(st, fin, alpha, a)
            && same_application(fin.elems, Type::Exist(alpha), a) && well_ordered(fin.elems),
    decreases fuel,
{
    if fuel > 0 {
        let g = (fuel - 1) as nat;
        lemma_found(st.elems, alpha);
        lemma_var_free_monotype(a);
        let idx = last_exist(st.elems, alpha).unwrap();
        let l = st.elems.subrange(0, idx);
        let r = st.elems.subrange(idx + 1, st.elems.len() as int);
        if wf_type(l, a) {
            assert forall|y: usize| #[trigger] free_exists(a).contains(y) implies exists|j: int|
                0 <= j < idx && #[trigger] declares(st.elems[j], y) by {
                lemma_wf_declared(l, a, y);
                if l.contains(Element::Exist(y)) {
                    let j = choose|j: int| 0 <= j < l.len() && l[j] == Element::Exist(y);
                    assert(declares(st.elems[j], y));
                } else {
                    lemma_solution_is_declared(l, y);
                    let t = solution_of(l, y).unwrap();
                    let j = choose|j: int| 0 <= j < l.len() && l[j] == Element::Solved(y, t);
                    assert(declares(st.elems[j], y));
                }
            }
            lemma_one_solution(st, alpha, a, alpha, a);
            assert(l.push(Element::Solved(alpha, a)) + r =~= l + seq![Element::Solved(alpha, a)] + r);
            lemma_solved_same(l + seq![Element::Solved(alpha, a)] + r, alpha, a);
        } else {
            match a {
                Type::Arrow(t1, t2) => {
                    if st.ev + 2 <= usize::MAX {
                        let a1 = st.ev as usize;
                        let a2 = (st.ev + 1) as usize;
                        let s2 = st_fresh(st, 2);
                        lemma_articulate(st, alpha, *t1, *t2);
                        lemma_instantiable_below(st, alpha, a);
                        let s3 = st_with(s2, splice(s2.elems, alpha, articulation(alpha, a1, a2)).unwrap());
                        assert forall|n: usize| #[trigger] free_exists(*t1).contains(n) implies n < st.ev by {
                            lemma_exists_of_arrow(*t1, *t2, n);
                        }
                        lemma_inst_l_solves(g, s3, a1, *t1);
                        lemma_inst_l_names_below(g, s3, a1, *t1);
                        if let Run::Done(Ok(_), s4) = inst_l_run(g, s3, a1, *t1) {
                            if let Some(t2a) = apply_fuel(s4.elems, *t2, g) {
                                lemma_codomain(st, *t2, s3, *t1, s4, g);
                                lemma_inst_r_solves(g, s4, t2a, a2);
                                if let Run::Done(Ok(_), s5) = inst_r_run(g, s4, t2a, a2) {
                                    assert forall|y: usize| #[trigger] may_touch(s3, a1, *t1, y) implies may_touch(
                                        st,
                                        alpha,
                                        a,
                                        y,
                                    ) by {
                                        lemma_exists_of_arrow(*t1, *t2, y);
                                    }
                                    lemma_instance_trans(st, s3, s4, alpha, a, a1, *t1);
                                    assert forall|y: usize| #[trigger] may_touch(s4, a2, t2a, y) implies may_touch(
                                        st,
                                        alpha,
                                        a,
                                        y,
                                    ) by {
                                        lemma_exists_of_arrow(*t1, *t2, y);
                                        if free_exists(t2a).contains(y) && !free_exists(*t2).contains(y) {
                                            assert(may_touch(s3, a1, *t1, y));
                                        }
                                    }
                                    lemma_instance_trans(st, s4, s5, alpha, a, a2, t2a);
                                    lemma_instance_keeps_solutions(s3, s4, a1, *t1);
                                    lemma_instance_keeps_solutions(s4, s5, a2, t2a);
                                    lemma_same_application_kept(s4.elems, s5.elems, Type::Exist(a1), *t1);
                                    assert forall|f: nat| #[trigger] apply_fuel(s5.elems, *t2, f) is Some implies apply_fuel(
                                        s5.elems,
                                        t2a,
                                        f,
                                    ) == apply_fuel(s5.elems, *t2, f) by {
                                        lemma_apply_stable(s4.elems, s5.elems, *t2, g, f);
                                    }
                                    lemma_arrow_same(s5.elems, alpha, a1, a2, *t1, *t2, t2a);
                                }
                            }
                        }
                    }
                },
                Type::Exist(beta) => {
                    lemma_exists_of_exist(beta, beta);
                    lemma_exists_of_exist(beta, alpha);
                    lemma_found(st.elems, beta);
                    let jb = last_exist(st.elems, beta).unwrap();
                    if jb < idx {
                        assert(l[jb] == Element::Exist(beta));
                        assert(l.contains(Element::Exist(beta)));
                    }
                    assert(jb != idx);
                    assert forall|y: usize| #[trigger] free_exists(Type::Exist(alpha)).contains(y) implies exists|j: int|
                        0 <= j < jb && #[trigger] declares(st.elems[j], y) by {
                        lemma_exists_of_exist(alpha, y);
                        assert(declares(st.elems[idx], y));
                    }
                    assert forall|y: usize| #[trigger] free_exists(Type::Exist(alpha)).contains(y) implies may_touch(
                        st,
                        alpha,
                        a,
                        y,
                    ) && solution_of(st.elems, y) is None && st.elems.contains(Element::Exist(y)) && y != beta by {
                        lemma_exists_of_exist(alpha, y);
                    }
                    lemma_one_solution(st, alpha, a, beta, Type::Exist(alpha));
                    let ins = seq![Element::Solved(beta, Type::Exist(alpha))];
                    lemma_found(st.elems, beta);
                    let jdx = last_exist(st.elems, beta).unwrap();
                    lemma_solved_same(
                        st.elems.subrange(0, jdx) + ins + st.elems.subrange(jdx + 1, st.elems.len() as int),
                        beta,
                        Type::Exist(alpha),
                    );
                },
                _ => {},
            }
        }
    }
}

/// Where both applications finish, and applying always finishes in a well
/// ordered context, `alpha` and `a` apply to the same type.
proof fn lemma_applies_alike(fin: CtxState, alpha: usize, a: Type)
    requires
        well_ordered(fin.elems),
        same_application(fin.elems, Type::Exist(alpha), a),
    ensures
        crate::laws::solutions_acyclic(fin.elems),
        exists|f: nat| #[trigger] apply_fuel(fin.elems, Type::Exist(alpha), f) is Some
            && apply_fuel(fin.elems, Type::Exist(alpha), f) == apply_fuel(fin.elems, a, f),
{
    lemma_well_ordered_acyclic(fin.elems);
    crate::laws::lemma_apply_terminates_everywhere(fin.elems, Type::Exist(alpha));
    crate::laws::lemma_apply_terminates_everywhere(fin.elems, a);
    let f1 = choose|f: nat| #[trigger] apply_fuel(fin.elems, Type::Exist(alpha), f) is Some;
    let f2 = choose|f: nat| #[trigger] apply_fuel(fin.elems, a, f) is Some;
    let f = if f1 <= f2 { f2 } else { f1 };
    crate::context::lemma_apply_fuel_mono(fin.elems, Type::Exist(alpha), f1, f);
    crate::context::lemma_apply_fuel_mono(fin.elems, a, f2, f);
    assert(apply_fuel(fin.elems, Type::Exist(alpha), f) == apply_fuel(fin.elems, a, f));
}

/// Instantiation solves. In a well-ordered context that names only numbers
/// below its counter, let `alpha` be an unsolved existential variable and
/// `a` a monotype without type variables whose existential variables are
/// unsolved and differ from `alpha`. Then a finished instantiation
/// `alpha <: a`, and a finished `a <: alpha`, succeeds, and in the context it
/// leaves `alpha` and `a` apply to the same type; applying that context
/// finishes on every type, it is still well ordered, and the only variables
/// with new solutions are `alpha`, variables of `a` and fresh ones, each
/// solved to a monotype without type variables.
pub proof fn lemma_instantiation_solves(fuel: nat, st: CtxState, alpha: usize, a: Type)
    requires
        can_instantiate(st, alpha, a),
    ensures
        inst_l_run(fuel, st, alpha, a) matches Run::Done(res, fin) ==> {
            &&& res is Ok
            &&& instance_of(st, fin, alpha, a)
            &&& well_ordered(fin.elems)
            &&& crate::laws::solutions_acyclic(fin.elems)
            &&& exists|f: nat| #[trigger] apply_fuel(fin.elems, Type::Exist(alpha), f) is Some
                && apply_fuel(fin.elems, Type::Exist(alpha), f) == apply_fuel(fin.elems, a, f)
        },
        inst_r_run(fuel, st, a, alpha) matches Run::Done(res, fin) ==> {
            &&& res is Ok
            &&& instance_of(st, fin, alpha, a)
            &&& well_ordered(fin.elems)
            &&& crate::laws::solutions_acyclic(fin.elems)
            &&& exists|f: nat| #[trigger] apply_fuel(fin.elems, Type::Exist(alpha), f) is Some
                && apply_fuel(fin.elems, Type::Exist(alpha), f) == apply_fuel(fin.elems, a, f)
        },
{
    lemma_inst_l_solves(fuel, st, alpha, a);
    lemma_inst_r_solves(fuel, st, a, alpha);
    if let Run::Done(_, fin) = inst_l_run(fuel, st, alpha, a) {
        lemma_applies_alike(fin, alpha, a);
    }
    if let Run::Done(_, fin) = inst_r_run(fuel, st, a, alpha) {
        lemma_applies_alike(fin, alpha, a);
    }
}

} // verus!
