//! Properties of types, contexts and judgments that hold for all inputs.
use vstd::prelude::*;
use crate::syntax::{NameV, TypeV, LitType, Lit, Expr, occurs, subst, is_mono};
use crate::context::{
    CtxElemV, ctx_split, ctx_insert, ctx_drop, ctx_before, solved_in, wf, is_first_index, first_index,
    lemma_first_index_exists, lemma_first_index_unique,
};
use crate::algorithm::{
    TypeError, apply_spec, check_spec, synth_spec, app_synth_spec, lit_type_of, subtype_spec,
    inst_l_spec, inst_r_spec, solve, articulate, exists_v,
};

verus! {

/// Substituting for a name that does not occur free leaves the type unchanged.
pub proof fn lemma_subst_absent(t: TypeV, x: NameV, r: TypeV)
    requires
        !occurs(x, t),
    ensures
        subst(t, x, r) == t,
    decreases t,
{
    match t {
        TypeV::Forall(a, b) => {
            if x != a {
                lemma_subst_absent(*b, x, r);
            }
        },
        TypeV::Fun(a, b) => {
            lemma_subst_absent(*a, x, r);
            lemma_subst_absent(*b, x, r);
        },
        TypeV::Tup(a, b) => {
            lemma_subst_absent(*a, x, r);
            lemma_subst_absent(*b, x, r);
        },
        _ => {},
    }
}

/// `[r/x]t` replaces every free occurrence of `x`: when `x` is not free in
/// `r`, it is not free in the result.
pub proof fn lemma_subst_eliminates(t: TypeV, x: NameV, r: TypeV)
    requires
        !occurs(x, r),
    ensures
        !occurs(x, subst(t, x, r)),
    decreases t,
{
    match t {
        TypeV::Forall(a, b) => {
            if x != a {
                lemma_subst_eliminates(*b, x, r);
            }
        },
        TypeV::Fun(a, b) => {
            lemma_subst_eliminates(*a, x, r);
            lemma_subst_eliminates(*b, x, r);
        },
        TypeV::Tup(a, b) => {
            lemma_subst_eliminates(*a, x, r);
            lemma_subst_eliminates(*b, x, r);
        },
        _ => {},
    }
}

/// No existential of `t` has a solution in `c`.
pub open spec fn no_solved(t: TypeV, c: Seq<CtxElemV>) -> bool
    decreases t,
{
    match t {
        TypeV::Exists(ex) => solved_in(c, ex) is None,
        TypeV::Forall(_, b) => no_solved(*b, c),
        TypeV::Fun(a, b) => no_solved(*a, c) && no_solved(*b, c),
        TypeV::Tup(a, b) => no_solved(*a, c) && no_solved(*b, c),
        _ => true,
    }
}

/// Applying a context changes nothing in a type none of whose existentials it
/// solves, whatever the fuel.
pub proof fn lemma_apply_unsolved(fuel: nat, t: TypeV, c: Seq<CtxElemV>)
    requires
        no_solved(t, c),
    ensures
        apply_spec(fuel, t, c) == Ok::<TypeV, TypeError>(t),
    decreases t,
{
    match t {
        TypeV::Forall(_, b) => {
            lemma_apply_unsolved(fuel, *b, c);
        },
        TypeV::Fun(a, b) => {
            lemma_apply_unsolved(fuel, *a, c);
            lemma_apply_unsolved(fuel, *b, c);
        },
        TypeV::Tup(a, b) => {
            lemma_apply_unsolved(fuel, *a, c);
            lemma_apply_unsolved(fuel, *b, c);
        },
        _ => {},
    }
}

/// Every existential left in the result of applying a context is unsolved
/// in that context.
pub proof fn lemma_apply_leaves_unsolved(fuel: nat, t: TypeV, c: Seq<CtxElemV>)
    ensures
        apply_spec(fuel, t, c) matches Ok(r) ==> no_solved(r, c),
    decreases fuel, t,
{
    match t {
        TypeV::Exists(ex) => {
            if let Some(t1) = solved_in(c, ex) {
                if fuel > 0 {
                    lemma_apply_leaves_unsolved((fuel - 1) as nat, t1, c);
                }
            }
        },
        TypeV::Forall(_, b) => {
            lemma_apply_leaves_unsolved(fuel, *b, c);
        },
        TypeV::Fun(a, b) => {
            lemma_apply_leaves_unsolved(fuel, *a, c);
            lemma_apply_leaves_unsolved(fuel, *b, c);
        },
        TypeV::Tup(a, b) => {
            lemma_apply_leaves_unsolved(fuel, *a, c);
            lemma_apply_leaves_unsolved(fuel, *b, c);
        },
        _ => {},
    }
}

/// Applying a context is idempotent: applying it again to its result, with
/// any fuel, gives that result back.
pub proof fn lemma_apply_idempotent(f1: nat, f2: nat, t: TypeV, c: Seq<CtxElemV>)
    requires
        apply_spec(f1, t, c) is Ok,
    ensures
        apply_spec(f2, apply_spec(f1, t, c)->Ok_0, c) == apply_spec(f1, t, c),
{
    lemma_apply_leaves_unsolved(f1, t, c);
    lemma_apply_unsolved(f2, apply_spec(f1, t, c)->Ok_0, c);
}

/// The solution that `solved_in` finds is an entry of the context, and any
/// `Solved` entry for a name gives it one.
pub proof fn lemma_solved_in_contains(c: Seq<CtxElemV>, x: NameV)
    ensures
        solved_in(c, x) matches Some(t) ==> c.contains(CtxElemV::Solved(x, t)),
        (exists|t: TypeV| c.contains(CtxElemV::Solved(x, t))) ==> solved_in(c, x) is Some,
    decreases c.len(),
{
    if c.len() > 0 {
        lemma_solved_in_contains(c.drop_first(), x);
        if let Some(t) = solved_in(c, x) {
            if c[0] != CtxElemV::Solved(x, t) {
                assert(solved_in(c.drop_first(), x) == Some(t));
                let j = choose|j: int| 0 <= j < c.drop_first().len() && c.drop_first()[j] == CtxElemV::Solved(x, t);
                assert(c[j + 1] == CtxElemV::Solved(x, t));
            } else {
                assert(c[0] == CtxElemV::Solved(x, t));
            }
        }
        if exists|t: TypeV| c.contains(CtxElemV::Solved(x, t)) {
            let t = choose|t: TypeV| c.contains(CtxElemV::Solved(x, t));
            let k = choose|k: int| 0 <= k < c.len() && c[k] == CtxElemV::Solved(x, t);
            if k > 0 {
                assert(c.drop_first()[k - 1] == CtxElemV::Solved(x, t));
                assert(c.drop_first().contains(CtxElemV::Solved(x, t)));
            }
        }
    }
}

/// Well-formedness depends only on which elements a context holds: a type
/// well formed in `c1` stays well formed in any `c2` that holds every element
/// of `c1`.
pub proof fn lemma_wf_weaken(c1: Seq<CtxElemV>, c2: Seq<CtxElemV>, t: TypeV)
    requires
        wf(c1, t),
        forall|e: CtxElemV| c1.contains(e) ==> c2.contains(e),
    ensures
        wf(c2, t),
    decreases t,
{
    match t {
        TypeV::Exists(x) => {
            lemma_solved_in_contains(c1, x);
            lemma_solved_in_contains(c2, x);
            if !c1.contains(CtxElemV::Exists(x)) {
                let s = solved_in(c1, x).unwrap();
                assert(c2.contains(CtxElemV::Solved(x, s)));
            }
        },
        TypeV::Forall(a, b) => {
            let d1 = c1.push(CtxElemV::Var(a));
            let d2 = c2.push(CtxElemV::Var(a));
            assert forall|e: CtxElemV| d1.contains(e) implies d2.contains(e) by {
                let k = choose|k: int| 0 <= k < d1.len() && d1[k] == e;
                if k < c1.len() {
                    assert(c1[k] == e);
                    assert(c1.contains(e));
                    let j = choose|j: int| 0 <= j < c2.len() && c2[j] == e;
                    assert(d2[j] == e);
                } else {
                    assert(d2[c2.len() as int] == e);
                }
            }
            lemma_wf_weaken(d1, d2, *b);
        },
        TypeV::Fun(a, b) => {
            lemma_wf_weaken(c1, c2, *a);
            lemma_wf_weaken(c1, c2, *b);
        },
        TypeV::Tup(a, b) => {
            lemma_wf_weaken(c1, c2, *a);
            lemma_wf_weaken(c1, c2, *b);
        },
        _ => {},
    }
}

/// Splitting a context at an element it holds gives back the context when
/// the two parts are joined, and the left part ends with that element.
pub proof fn lemma_split_rejoins(c: Seq<CtxElemV>, e: CtxElemV)
    requires
        c.contains(e),
    ensures
        ctx_split(c, e).0 + ctx_split(c, e).1 == c,
        ctx_split(c, e).0.last() == e,
        !ctx_split(c, e).0.drop_last().contains(e),
{
    lemma_first_index_exists(c, e);
    let i = first_index(c, e);
    assert(c.take(i + 1) + c.skip(i + 1) =~= c);
    assert(c.take(i + 1).drop_last() =~= c.take(i));
}

/// Replacing an element by `ins` removes exactly that element and puts `ins`
/// in its place: the length changes by `ins.len() - 1`, and with no inserts
/// the context is the one before minus that element.
pub proof fn lemma_insert_replaces(c: Seq<CtxElemV>, e: CtxElemV, ins: Seq<CtxElemV>)
    requires
        c.contains(e),
    ensures
        ctx_insert(c, e, ins).len() == c.len() - 1 + ins.len(),
        ctx_insert(c, e, Seq::empty()) == c.remove(first_index(c, e)),
{
    lemma_first_index_exists(c, e);
    let i = first_index(c, e);
    assert(c.take(i) + Seq::<CtxElemV>::empty() + c.skip(i + 1) =~= c.remove(i));
}

/// Adding a new element and then dropping what follows it leaves the context
/// with the element added.
pub proof fn lemma_add_then_drop(c: Seq<CtxElemV>, e: CtxElemV)
    requires
        !c.contains(e),
    ensures
        ctx_drop(c.push(e), e) == c.push(e),
{
    let d = c.push(e);
    assert(d[c.len() as int] == e);
    assert forall|j: int| 0 <= j < c.len() implies d[j] != e by {
        assert(d[j] == c[j]);
    }
    assert(is_first_index(d, e, c.len() as int));
    lemma_first_index_unique(d, e, c.len() as int);
    assert(d.take(c.len() as int + 1) =~= d);
}

/// Opening a scope with a new element and closing it again (dropping the
/// element and what follows) gives back the context as it was.
pub proof fn lemma_add_then_drop_from(c: Seq<CtxElemV>, e: CtxElemV)
    requires
        !c.contains(e),
    ensures
        ctx_before(c.push(e), e) == c,
{
    let d = c.push(e);
    assert(d[c.len() as int] == e);
    assert forall|j: int| 0 <= j < c.len() implies d[j] != e by {
        assert(d[j] == c[j]);
    }
    assert(is_first_index(d, e, c.len() as int));
    lemma_first_index_unique(d, e, c.len() as int);
    assert(d.take(c.len() as int) =~= c);
}

proof fn lemma_solved_in_concat(a: Seq<CtxElemV>, b: Seq<CtxElemV>, x: NameV)
    ensures
        solved_in(a + b, x) == (if solved_in(a, x) is Some {
            solved_in(a, x)
        } else {
            solved_in(b, x)
        }),
    decreases a.len(),
{
    if a.len() == 0 {
        assert(a + b =~= b);
    } else {
        assert((a + b).drop_first() =~= a.drop_first() + b);
        assert((a + b)[0] == a[0]);
        lemma_solved_in_concat(a.drop_first(), b, x);
    }
}

/// Solving an unsolved existential and reading its solution back gives the
/// solution that was written.
pub proof fn lemma_solve_then_read(c: Seq<CtxElemV>, ex: NameV, t: TypeV)
    requires
        c.contains(CtxElemV::Exists(ex)),
        solved_in(c, ex) is None,
    ensures
        solved_in(solve(c, ex, t), ex) == Some(t),
{
    let e = CtxElemV::Exists(ex);
    lemma_first_index_exists(c, e);
    let i = first_index(c, e);
    let s = seq![CtxElemV::Solved(ex, t)];
    assert(c.take(i) + c.skip(i) =~= c);
    lemma_solved_in_concat(c.take(i), c.skip(i), ex);
    assert(solved_in(s, ex) == Some(t)) by {
        assert(s[0] == CtxElemV::Solved(ex, t));
    }
    lemma_solved_in_concat(c.take(i), s + c.skip(i + 1), ex);
    lemma_solved_in_concat(s, c.skip(i + 1), ex);
    assert(c.take(i) + s + c.skip(i + 1) =~= c.take(i) + (s + c.skip(i + 1)));
}

/// A literal checks against a literal type exactly when it synthesizes that
/// type, and neither judgment changes the context or the counter.
pub proof fn lemma_literal_check_synth(fuel: nat, n: nat, c: Seq<CtxElemV>, l: Lit, lt: LitType)
    requires
        fuel > 0,
    ensures
        synth_spec(fuel, n, c, Expr::Lit(l)) == Ok::<(TypeV, Seq<CtxElemV>, nat), TypeError>(
            (TypeV::Lit(lit_type_of(l)), c, n),
        ),
        (check_spec(fuel, n, c, Expr::Lit(l), TypeV::Lit(lt)) == Ok::<
            (Seq<CtxElemV>, nat),
            TypeError,
        >((c, n))) == (lit_type_of(l) == lt),
        check_spec(fuel, n, c, Expr::Lit(l), TypeV::Lit(lt)) is Err ==> check_spec(
            fuel,
            n,
            c,
            Expr::Lit(l),
            TypeV::Lit(lt),
        ) == Err::<(Seq<CtxElemV>, nat), TypeError>(TypeError::Rejected),
{
}

/// An annotated expression synthesizes exactly its annotation, in the
/// context that checking it against the annotation leaves.
pub proof fn lemma_annotation_synthesizes(fuel: nat, n: nat, c: Seq<CtxElemV>, e: Expr)
    requires
        e is Ann,
        fuel > 0,
    ensures
        synth_spec(fuel, n, c, e) matches Ok((t, c2, m)) ==> t == e->Ann_1@ && check_spec(
            (fuel - 1) as nat,
            n,
            c,
            *e->Ann_0,
            e->Ann_1@,
        ) == Ok::<(Seq<CtxElemV>, nat), TypeError>((c2, m)),
{
}

/// The number of nodes of a type.
pub open spec fn size(t: TypeV) -> nat
    decreases t,
{
    match t {
        TypeV::Forall(_, b) => 1 + size(*b),
        TypeV::Fun(a, b) => 1 + size(*a) + size(*b),
        TypeV::Tup(a, b) => 1 + size(*a) + size(*b),
        _ => 1,
    }
}

/// Subtyping is reflexive on well-formed monotypes none of whose existentials
/// is solved, and leaves the context and the counter as they were, given
/// more fuel than the type has nodes.
pub proof fn lemma_subtype_reflexive(fuel: nat, n: nat, c: Seq<CtxElemV>, t: TypeV)
    requires
        is_mono(t),
        no_solved(t, c),
        wf(c, t),
        fuel > size(t),
    ensures
        subtype_spec(fuel, n, c, t, t) == Ok::<(Seq<CtxElemV>, nat), TypeError>((c, n)),
    decreases t,
{
    let f = (fuel - 1) as nat;
    match t {
        TypeV::Fun(a, b) => {
            lemma_subtype_reflexive(f, n, c, *a);
            lemma_apply_unsolved(f, *b, c);
            lemma_subtype_reflexive(f, n, c, *b);
        },
        TypeV::Tup(a, b) => {
            lemma_subtype_reflexive(f, n, c, *a);
            lemma_subtype_reflexive(f, n, c, *b);
        },
        _ => {},
    }
}

/// Every solution in `c` is a monotype well formed in `c`.
pub open spec fn solutions_mono_wf(c: Seq<CtxElemV>) -> bool {
    forall|x: NameV| #[trigger] solved_in(c, x) is Some ==> is_mono(solved_in(c, x)->Some_0) && wf(
        c,
        solved_in(c, x)->Some_0,
    )
}

/// Applying a context whose solutions are well-formed monotypes to a
/// well-formed monotype gives a well-formed monotype.
pub proof fn lemma_apply_mono_wf(fuel: nat, t: TypeV, c: Seq<CtxElemV>)
    requires
        is_mono(t),
        wf(c, t),
        solutions_mono_wf(c),
    ensures
        apply_spec(fuel, t, c) matches Ok(r) ==> is_mono(r) && wf(c, r),
    decreases fuel, t,
{
    match t {
        TypeV::Exists(ex) => {
            if let Some(t1) = solved_in(c, ex) {
                if fuel > 0 {
                    lemma_apply_mono_wf((fuel - 1) as nat, t1, c);
                }
            }
        },
        TypeV::Fun(a, b) => {
            lemma_apply_mono_wf(fuel, *a, c);
            lemma_apply_mono_wf(fuel, *b, c);
        },
        TypeV::Tup(a, b) => {
            lemma_apply_mono_wf(fuel, *a, c);
            lemma_apply_mono_wf(fuel, *b, c);
        },
        _ => {},
    }
}

/// Subtyping is reflexive on every well-formed monotype, also one whose
/// existentials are solved, in a context whose solutions are well-formed
/// monotypes and lead nowhere circular (applying the context to the type ends
/// within `k` steps): it leaves the context and the counter as they were,
/// given more fuel than `k` and the size of the applied type together.
pub proof fn lemma_subtype_reflexive_solved(fuel: nat, k: nat, n: nat, c: Seq<CtxElemV>, t: TypeV)
    requires
        is_mono(t),
        wf(c, t),
        solutions_mono_wf(c),
        apply_spec(k, t, c) is Ok,
        fuel > k + size(apply_spec(k, t, c)->Ok_0),
    ensures
        subtype_spec(fuel, n, c, t, t) == Ok::<(Seq<CtxElemV>, nat), TypeError>((c, n)),
    decreases t,
{
    let f = (fuel - 1) as nat;
    match t {
        TypeV::Fun(a, b) => {
            lemma_subtype_reflexive_solved(f, k, n, c, *a);
            let rb = apply_spec(k, *b, c)->Ok_0;
            lemma_apply_fuel(k, f, *b, c);
            lemma_apply_leaves_unsolved(k, *b, c);
            lemma_apply_mono_wf(k, *b, c);
            lemma_subtype_reflexive(f, n, c, rb);
        },
        TypeV::Tup(a, b) => {
            lemma_subtype_reflexive_solved(f, k, n, c, *a);
            lemma_subtype_reflexive_solved(f, k, n, c, *b);
        },
        _ => {},
    }
}

/// The result ran out of budget or counter.
pub open spec fn exhausted<T>(r: Result<T, TypeError>) -> bool {
    r matches Err(TypeError::Exhausted)
}

/// Applying a context does not depend on the fuel once it does not run out.
pub proof fn lemma_apply_fuel(f1: nat, f2: nat, t: TypeV, c: Seq<CtxElemV>)
    requires
        f1 <= f2,
        !exhausted(apply_spec(f1, t, c)),
    ensures
        apply_spec(f2, t, c) == apply_spec(f1, t, c),
    decreases f1, t,
{
    match t {
        TypeV::Exists(ex) => {
            if let Some(t1) = solved_in(c, ex) {
                if f1 > 0 {
                    lemma_apply_fuel((f1 - 1) as nat, (f2 - 1) as nat, t1, c);
                }
            }
        },
        TypeV::Fun(a, b) => {
            lemma_apply_fuel(f1, f2, *a, c);
            if apply_spec(f1, *a, c) is Ok {
                lemma_apply_fuel(f1, f2, *b, c);
            }
        },
        TypeV::Tup(a, b) => {
            lemma_apply_fuel(f1, f2, *a, c);
            if apply_spec(f1, *a, c) is Ok {
                lemma_apply_fuel(f1, f2, *b, c);
            }
        },
        TypeV::Forall(_, b) => {
            lemma_apply_fuel(f1, f2, *b, c);
        },
        _ => {},
    }
}

/// Checking does not depend on the fuel once it does not run out, and the
/// counter of fresh existentials never goes back.
pub proof fn lemma_check_fuel(f1: nat, f2: nat, n: nat, c: Seq<CtxElemV>, e: Expr, t: TypeV)
    requires
        f1 <= f2,
        !exhausted(check_spec(f1, n, c, e, t)),
    ensures
        check_spec(f2, n, c, e, t) == check_spec(f1, n, c, e, t),
        check_spec(f1, n, c, e, t) matches Ok((_, m)) ==> m >= n,
    decreases f1,
{
    if f1 > 0 && wf(c, t) {
        let g1 = (f1 - 1) as nat;
        let g2 = (f2 - 1) as nat;
        match (e, t) {
            (Expr::Lit(l), TypeV::Lit(lt)) => {},
            (Expr::Abs(x, body), TypeV::Fun(t0, t1)) => {
                if c.len() < usize::MAX {
                    lemma_check_fuel(g1, g2, n, c.push(CtxElemV::TypedVar(x@, *t0)), *body, *t1);
                }
            },
            (_, TypeV::Forall(a, t2)) => {
                if c.len() < usize::MAX {
                    lemma_check_fuel(g1, g2, n, c.push(CtxElemV::Var(a)), e, *t2);
                }
            },
            (Expr::Tup(e0, e1), TypeV::Tup(t0, t1)) => {
                lemma_check_fuel(g1, g2, n, c, *e0, *t0);
                if let Ok((c1, n1)) = check_spec(g1, n, c, *e0, *t0) {
                    lemma_check_fuel(g1, g2, n1, c1, *e1, *t1);
                }
            },
            _ => {
                lemma_synth_fuel(g1, g2, n, c, e);
                if let Ok((t1, c1, n1)) = synth_spec(g1, n, c, e) {
                    lemma_apply_fuel(g1, g2, t1, c1);
                    if let Ok(t2) = apply_spec(g1, t1, c1) {
                        lemma_apply_fuel(g1, g2, t, c1);
                        if let Ok(t3) = apply_spec(g1, t, c1) {
                            lemma_subtype_fuel(g1, g2, n1, c1, t2, t3);
                        }
                    }
                }
            },
        }
    }
}

/// Synthesis does not depend on the fuel once it does not run out, and the
/// counter of fresh existentials never goes back.
pub proof fn lemma_synth_fuel(f1: nat, f2: nat, n: nat, c: Seq<CtxElemV>, e: Expr)
    requires
        f1 <= f2,
        !exhausted(synth_spec(f1, n, c, e)),
    ensures
        synth_spec(f2, n, c, e) == synth_spec(f1, n, c, e),
        synth_spec(f1, n, c, e) matches Ok((_, _, m)) ==> m >= n,
    decreases f1,
{
    if f1 > 0 {
        let g1 = (f1 - 1) as nat;
        let g2 = (f2 - 1) as nat;
        match e {
            Expr::Ann(e1, t) => {
                if wf(c, t@) {
                    lemma_check_fuel(g1, g2, n, c, *e1, t@);
                }
            },
            Expr::Abs(x, body) => {
                if !(n + 2 > usize::MAX || c.len() + 3 > usize::MAX) {
                    let ex0 = NameV::Index(n);
                    let ex1 = NameV::Index(n + 1);
                    let tv = CtxElemV::TypedVar(x@, exists_v(ex0));
                    let c1 = c.push(CtxElemV::Exists(ex0)).push(CtxElemV::Exists(ex1)).push(tv);
                    lemma_check_fuel(g1, g2, n + 2, c1, *body, exists_v(ex1));
                }
            },
            Expr::Tup(e0, e1) => {
                lemma_synth_fuel(g1, g2, n, c, *e0);
                if let Ok((t1, c1, n1)) = synth_spec(g1, n, c, *e0) {
                    lemma_synth_fuel(g1, g2, n1, c1, *e1);
                }
            },
            Expr::Let(x, e0, e1) => {
                lemma_synth_fuel(g1, g2, n, c, *e0);
                if let Ok((t0, c1, n1)) = synth_spec(g1, n, c, *e0) {
                    if c1.len() < usize::MAX {
                        lemma_synth_fuel(g1, g2, n1, c1.push(CtxElemV::TypedVar(x@, t0)), *e1);
                    }
                }
            },
            Expr::App(e0, e1) => {
                lemma_synth_fuel(g1, g2, n, c, *e0);
                if let Ok((t, c1, n1)) = synth_spec(g1, n, c, *e0) {
                    lemma_apply_fuel(g1, g2, t, c1);
                    if let Ok(ta) = apply_spec(g1, t, c1) {
                        lemma_app_synth_fuel(g1, g2, n1, c1, ta, *e1);
                    }
                }
            },
            _ => {},
        }
    }
}

/// Application synthesis does not depend on the fuel once it does not run
/// out, and the counter of fresh existentials never goes back.
pub proof fn lemma_app_synth_fuel(f1: nat, f2: nat, n: nat, c: Seq<CtxElemV>, t: TypeV, e: Expr)
    requires
        f1 <= f2,
        !exhausted(app_synth_spec(f1, n, c, t, e)),
    ensures
        app_synth_spec(f2, n, c, t, e) == app_synth_spec(f1, n, c, t, e),
        app_synth_spec(f1, n, c, t, e) matches Ok((_, _, m)) ==> m >= n,
    decreases f1,
{
    if f1 > 0 {
        let g1 = (f1 - 1) as nat;
        let g2 = (f2 - 1) as nat;
        match t {
            TypeV::Exists(ex0) => {
                let ex1 = NameV::Index(n);
                let ex2 = NameV::Index(n + 1);
                if n + 2 <= usize::MAX && c.contains(CtxElemV::Exists(ex0)) && c.len() + 2 <= usize::MAX {
                    lemma_check_fuel(g1, g2, n + 2, articulate(c, ex0, ex1, ex2, true), e, exists_v(ex1));
                }
            },
            TypeV::Forall(a0, t0) => {
                if !(n + 1 > usize::MAX || c.len() >= usize::MAX) {
                    let ex0 = NameV::Index(n);
                    lemma_app_synth_fuel(
                        g1,
                        g2,
                        n + 1,
                        c.push(CtxElemV::Exists(ex0)),
                        subst(*t0, a0, exists_v(ex0)),
                        e,
                    );
                }
            },
            TypeV::Fun(t0, t1) => {
                lemma_check_fuel(g1, g2, n, c, e, *t0);
            },
            _ => {},
        }
    }
}

/// Subtyping does not depend on the fuel once it does not run out, and the
/// counter of fresh existentials never goes back.
pub proof fn lemma_subtype_fuel(f1: nat, f2: nat, n: nat, c: Seq<CtxElemV>, t0: TypeV, t1: TypeV)
    requires
        f1 <= f2,
        !exhausted(subtype_spec(f1, n, c, t0, t1)),
    ensures
        subtype_spec(f2, n, c, t0, t1) == subtype_spec(f1, n, c, t0, t1),
        subtype_spec(f1, n, c, t0, t1) matches Ok((_, m)) ==> m >= n,
    decreases f1,
{
    if f1 > 0 && wf(c, t0) && wf(c, t1) {
        let g1 = (f1 - 1) as nat;
        let g2 = (f2 - 1) as nat;
        match (t0, t1) {
            (TypeV::Lit(a), TypeV::Lit(b)) => {},
            (TypeV::Var(a0), TypeV::Var(a1)) => {},
            (TypeV::Exists(ex0), TypeV::Exists(ex1)) if ex0 == ex1 => {},
            (TypeV::Fun(ta1, ta2), TypeV::Fun(tb1, tb2)) => {
                lemma_subtype_fuel(g1, g2, n, c, *tb1, *ta1);
                if let Ok((c1, n1)) = subtype_spec(g1, n, c, *tb1, *ta1) {
                    lemma_apply_fuel(g1, g2, *ta2, c1);
                    if let Ok(a2) = apply_spec(g1, *ta2, c1) {
                        lemma_apply_fuel(g1, g2, *tb2, c1);
                        if let Ok(b2) = apply_spec(g1, *tb2, c1) {
                            lemma_subtype_fuel(g1, g2, n1, c1, a2, b2);
                        }
                    }
                }
            },
            (TypeV::Tup(ta1, ta2), TypeV::Tup(tb1, tb2)) => {
                lemma_subtype_fuel(g1, g2, n, c, *ta1, *tb1);
                if let Ok((c1, n1)) = subtype_spec(g1, n, c, *ta1, *tb1) {
                    lemma_subtype_fuel(g1, g2, n1, c1, *ta2, *tb2);
                }
            },
            (_, TypeV::Forall(a, t2)) => {
                if c.len() < usize::MAX {
                    lemma_subtype_fuel(g1, g2, n, c.push(CtxElemV::Var(a)), t0, *t2);
                }
            },
            (TypeV::Forall(a, t2), _) => {
                if !(n + 1 > usize::MAX || c.len() + 2 > usize::MAX) {
                    let ex0 = NameV::Index(n);
                    let c1 = c.push(CtxElemV::Marker(ex0)).push(CtxElemV::Exists(ex0));
                    lemma_subtype_fuel(g1, g2, n + 1, c1, subst(*t2, a, exists_v(ex0)), t1);
                }
            },
            (TypeV::Exists(ex0), _) => {
                if !occurs(ex0, t1) {
                    lemma_inst_l_fuel(g1, g2, n, c, ex0, t1);
                }
            },
            (_, TypeV::Exists(ex0)) => {
                if !occurs(ex0, t0) {
                    lemma_inst_r_fuel(g1, g2, n, c, t0, ex0);
                }
            },
            _ => {},
        }
    }
}

/// Left instantiation does not depend on the fuel once it does not run out,
/// and the counter of fresh existentials never goes back.
pub proof fn lemma_inst_l_fuel(f1: nat, f2: nat, n: nat, c: Seq<CtxElemV>, ex0: NameV, t: TypeV)
    requires
        f1 <= f2,
        !exhausted(inst_l_spec(f1, n, c, ex0, t)),
    ensures
        inst_l_spec(f2, n, c, ex0, t) == inst_l_spec(f1, n, c, ex0, t),
        inst_l_spec(f1, n, c, ex0, t) matches Ok((_, m)) ==> m >= n,
    decreases f1,
{
    if f1 > 0 && c.contains(CtxElemV::Exists(ex0)) && !(is_mono(t) && wf(
        ctx_before(c, CtxElemV::Exists(ex0)),
        t,
    )) {
        let g1 = (f1 - 1) as nat;
        let g2 = (f2 - 1) as nat;
        match t {
            TypeV::Fun(t1, t2) => {
                if !(n + 2 > usize::MAX || c.len() + 2 > usize::MAX) {
                    let ex1 = NameV::Index(n);
                    let ex2 = NameV::Index(n + 1);
                    let c1 = articulate(c, ex0, ex1, ex2, true);
                    lemma_inst_r_fuel(g1, g2, n + 2, c1, *t1, ex1);
                    if let Ok((c2, n2)) = inst_r_spec(g1, n + 2, c1, *t1, ex1) {
                        lemma_apply_fuel(g1, g2, *t2, c2);
                        if let Ok(t3) = apply_spec(g1, *t2, c2) {
                            lemma_inst_l_fuel(g1, g2, n2, c2, ex2, t3);
                        }
                    }
                }
            },
            TypeV::Forall(a, t1) => {
                if c.len() < usize::MAX {
                    lemma_inst_l_fuel(g1, g2, n, c.push(CtxElemV::Var(a)), ex0, *t1);
                }
            },
            _ => {},
        }
    }
}

/// Right instantiation does not depend on the fuel once it does not run out,
/// and the counter of fresh existentials never goes back.
pub proof fn lemma_inst_r_fuel(f1: nat, f2: nat, n: nat, c: Seq<CtxElemV>, t: TypeV, ex0: NameV)
    requires
        f1 <= f2,
        !exhausted(inst_r_spec(f1, n, c, t, ex0)),
    ensures
        inst_r_spec(f2, n, c, t, ex0) == inst_r_spec(f1, n, c, t, ex0),
        inst_r_spec(f1, n, c, t, ex0) matches Ok((_, m)) ==> m >= n,
    decreases f1,
{
    if f1 > 0 && c.contains(CtxElemV::Exists(ex0)) && !(is_mono(t) && wf(
        ctx_before(c, CtxElemV::Exists(ex0)),
        t,
    )) {
        let g1 = (f1 - 1) as nat;
        let g2 = (f2 - 1) as nat;
        match t {
            TypeV::Fun(t0, t1) => {
                if !(n + 2 > usize::MAX || c.len() + 2 > usize::MAX) {
                    let ex1 = NameV::Index(n);
                    let ex2 = NameV::Index(n + 1);
                    let c1 = articulate(c, ex0, ex1, ex2, true);
                    lemma_inst_l_fuel(g1, g2, n + 2, c1, ex1, *t0);
                    if let Ok((c2, n2)) = inst_l_spec(g1, n + 2, c1, ex1, *t0) {
                        lemma_apply_fuel(g1, g2, *t1, c2);
                        if let Ok(t3) = apply_spec(g1, *t1, c2) {
                            lemma_inst_r_fuel(g1, g2, n2, c2, t3, ex2);
                        }
                    }
                }
            },
            TypeV::Tup(t0, t1) => {
                if !(n + 2 > usize::MAX || c.len() + 2 > usize::MAX) {
                    let ex1 = NameV::Index(n);
                    let ex2 = NameV::Index(n + 1);
                    let c1 = articulate(c, ex0, ex1, ex2, false);
                    lemma_inst_l_fuel(g1, g2, n + 2, c1, ex1, *t0);
                    if let Ok((c2, n2)) = inst_l_spec(g1, n + 2, c1, ex1, *t0) {
                        lemma_apply_fuel(g1, g2, *t1, c2);
                        if let Ok(t3) = apply_spec(g1, *t1, c2) {
                            lemma_inst_r_fuel(g1, g2, n2, c2, t3, ex2);
                        }
                    }
                }
            },
            TypeV::Forall(a, t1) => {
                if !(n + 1 > usize::MAX || c.len() + 2 > usize::MAX) {
                    let ex1 = NameV::Index(n);
                    let c1 = c.push(CtxElemV::Marker(ex1)).push(CtxElemV::Exists(ex1));
                    lemma_inst_r_fuel(g1, g2, n + 1, c1, subst(*t1, a, exists_v(ex1)), ex0);
                }
            },
            _ => {},
        }
    }
}

} // verus!
