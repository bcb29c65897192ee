//! What the rules of the algorithm do, stated over all inputs: how a
//! judgment's result relates to the judgments it is built from, and what the
//! result must satisfy.
use vstd::prelude::*;
use crate::syntax::{Name, NameV, TypeV, Lit, Expr, subst};
use crate::context::{CtxElemV, ctx_before, ctx_insert, annotation_in, wf};
use crate::algorithm::{
    TypeError, apply_spec, check_spec, synth_spec, app_synth_spec, lit_type_of, subtype_spec, exists_v,
};
use crate::laws::{no_solved, lemma_apply_unsolved, lemma_add_then_drop_from};

verus! {

/// A type with neither an existential nor a quantifier.
pub open spec fn ground(t: TypeV) -> bool
    decreases t,
{
    match t {
        TypeV::Lit(_) => true,
        TypeV::Var(_) => true,
        TypeV::Fun(a, b) => ground(*a) && ground(*b),
        TypeV::Tup(a, b) => ground(*a) && ground(*b),
        _ => false,
    }
}

proof fn lemma_ground_no_solved(t: TypeV, c: Seq<CtxElemV>)
    requires
        ground(t),
    ensures
        no_solved(t, c),
    decreases t,
{
    match t {
        TypeV::Fun(a, b) => {
            lemma_ground_no_solved(*a, c);
            lemma_ground_no_solved(*b, c);
        },
        TypeV::Tup(a, b) => {
            lemma_ground_no_solved(*a, c);
            lemma_ground_no_solved(*b, c);
        },
        _ => {},
    }
}

/// Subtyping between types with neither existentials nor quantifiers holds
/// only between equal types (between type variables it is identity), and
/// then leaves the context and the counter as they were.
pub proof fn lemma_subtype_ground(fuel: nat, n: nat, c: Seq<CtxElemV>, t0: TypeV, t1: TypeV)
    requires
        ground(t0),
        ground(t1),
    ensures
        subtype_spec(fuel, n, c, t0, t1) matches Ok((d, m)) ==> t0 == t1 && d == c && m == n,
    decreases fuel,
{
    if fuel > 0 && wf(c, t0) && wf(c, t1) {
        let f = (fuel - 1) as nat;
        match (t0, t1) {
            (TypeV::Fun(ta1, ta2), TypeV::Fun(tb1, tb2)) => {
                lemma_subtype_ground(f, n, c, *tb1, *ta1);
                if let Ok((c1, n1)) = subtype_spec(f, n, c, *tb1, *ta1) {
                    lemma_ground_no_solved(*ta2, c1);
                    lemma_ground_no_solved(*tb2, c1);
                    lemma_apply_unsolved(f, *ta2, c1);
                    lemma_apply_unsolved(f, *tb2, c1);
                    lemma_subtype_ground(f, n1, c1, *ta2, *tb2);
                }
            },
            (TypeV::Tup(ta1, ta2), TypeV::Tup(tb1, tb2)) => {
                lemma_subtype_ground(f, n, c, *ta1, *tb1);
                if let Ok((c1, n1)) = subtype_spec(f, n, c, *ta1, *tb1) {
                    lemma_subtype_ground(f, n1, c1, *ta2, *tb2);
                }
            },
            _ => {},
        }
    }
}

/// Checking a λ against `A -> B` binds the parameter at `A`, checks the body
/// against `B`, and closes the parameter's scope again.
pub proof fn lemma_check_abs(fuel: nat, n: nat, c: Seq<CtxElemV>, x: Name, body: Expr, a: TypeV, b: TypeV)
    requires
        fuel > 0,
        wf(c, TypeV::Fun(Box::new(a), Box::new(b))),
        c.len() < usize::MAX,
    ensures
        check_spec(fuel, n, c, Expr::Abs(x, Box::new(body)), TypeV::Fun(Box::new(a), Box::new(b)))
            == (match check_spec((fuel - 1) as nat, n, c.push(CtxElemV::TypedVar(x@, a)), body, b) {
            Err(err) => Err(err),
            Ok((c2, n2)) => if c2.contains(CtxElemV::TypedVar(x@, a)) {
                Ok((ctx_before(c2, CtxElemV::TypedVar(x@, a)), n2))
            } else {
                Err(TypeError::Rejected)
            },
        }),
{
}

/// `λx.ℓ` checks against `A -> T`, with `T` the type of the literal `ℓ`, for
/// every well-formed `A`, and leaves the context and the counter as they
/// were.
pub proof fn lemma_check_abs_literal(fuel: nat, n: nat, c: Seq<CtxElemV>, x: Name, l: Lit, a: TypeV)
    requires
        fuel >= 2,
        wf(c, a),
        c.len() < usize::MAX,
        !c.contains(CtxElemV::TypedVar(x@, a)),
    ensures
        check_spec(
            fuel,
            n,
            c,
            Expr::Abs(x, Box::new(Expr::Lit(l))),
            TypeV::Fun(Box::new(a), Box::new(TypeV::Lit(lit_type_of(l)))),
        ) == Ok::<(Seq<CtxElemV>, nat), TypeError>((c, n)),
{
    let elem = CtxElemV::TypedVar(x@, a);
    let c1 = c.push(elem);
    let lt = TypeV::Lit(lit_type_of(l));
    assert(wf(c, lt));
    assert(wf(c, TypeV::Fun(Box::new(a), Box::new(lt))));
    assert(check_spec((fuel - 1) as nat, n, c1, Expr::Lit(l), lt) == Ok::<(Seq<CtxElemV>, nat), TypeError>((c1, n)));
    assert(c1[c.len() as int] == elem);
    assert(c1.contains(elem));
    lemma_add_then_drop_from(c, elem);
}

/// Synthesis of an application sees the function's type through the
/// context: `e0 e1` synthesizes what applying `[c1]t` to `e1` synthesizes,
/// where `e0` synthesizes `t` and leaves `c1`.
pub proof fn lemma_synth_app(fuel: nat, n: nat, c: Seq<CtxElemV>, e0: Expr, e1: Expr)
    requires
        fuel > 0,
    ensures
        synth_spec(fuel, n, c, Expr::App(Box::new(e0), Box::new(e1))) == (match synth_spec(
            (fuel - 1) as nat,
            n,
            c,
            e0,
        ) {
            Err(err) => Err(err),
            Ok((t, c1, n1)) => match apply_spec((fuel - 1) as nat, t, c1) {
                Err(err) => Err(err),
                Ok(ta) => app_synth_spec((fuel - 1) as nat, n1, c1, ta, e1),
            },
        }),
{
}

/// Applying a function whose type, seen through the context it left, is
/// `A -> B` checks the argument against `A` and synthesizes `B`: so a
/// function whose type an earlier application solved can be applied again.
pub proof fn lemma_synth_app_fun(
    fuel: nat,
    n: nat,
    c: Seq<CtxElemV>,
    e0: Expr,
    e1: Expr,
    t: TypeV,
    c1: Seq<CtxElemV>,
    n1: nat,
    a: TypeV,
    b: TypeV,
)
    requires
        fuel >= 2,
        synth_spec((fuel - 1) as nat, n, c, e0) == Ok::<(TypeV, Seq<CtxElemV>, nat), TypeError>((t, c1, n1)),
        apply_spec((fuel - 1) as nat, t, c1) == Ok::<TypeV, TypeError>(
            TypeV::Fun(Box::new(a), Box::new(b)),
        ),
    ensures
        synth_spec(fuel, n, c, Expr::App(Box::new(e0), Box::new(e1))) == (match check_spec(
            (fuel - 2) as nat,
            n1,
            c1,
            e1,
            a,
        ) {
            Err(err) => Err(err),
            Ok((c2, n2)) => Ok((b, c2, n2)),
        }),
{
    let f = (fuel - 1) as nat;
    assert(app_synth_spec(f, n1, c1, TypeV::Fun(Box::new(a), Box::new(b)), e1) == (match check_spec(
        (f - 1) as nat,
        n1,
        c1,
        e1,
        a,
    ) {
        Err(err) => Err(err),
        Ok((c2, n2)) => Ok((b, c2, n2)),
    }));
}

/// A variable synthesizes the type its first binding in the context gives
/// it, and changes neither the context nor the counter; an unbound variable
/// is rejected.
pub proof fn lemma_synth_var(fuel: nat, n: nat, c: Seq<CtxElemV>, x: Name)
    requires
        fuel > 0,
    ensures
        synth_spec(fuel, n, c, Expr::Var(x)) == (match annotation_in(c, x@) {
            Some(t) => Ok((t, c, n)),
            None => Err(TypeError::Rejected),
        }),
{
}

/// A pair synthesizes the pair of the types its parts synthesize, the
/// second in the context the first leaves.
pub proof fn lemma_synth_pair(fuel: nat, n: nat, c: Seq<CtxElemV>, e0: Expr, e1: Expr)
    requires
        fuel > 0,
    ensures
        synth_spec(fuel, n, c, Expr::Tup(Box::new(e0), Box::new(e1))) == (match synth_spec(
            (fuel - 1) as nat,
            n,
            c,
            e0,
        ) {
            Err(err) => Err(err),
            Ok((t0, c1, n1)) => match synth_spec((fuel - 1) as nat, n1, c1, e1) {
                Err(err) => Err(err),
                Ok((t1, c2, n2)) => Ok((TypeV::Tup(Box::new(t0), Box::new(t1)), c2, n2)),
            },
        }),
{
}

/// `let x = e0 in e1` synthesizes what `e1` synthesizes with `x` bound to the
/// type of `e0`, and the binding of `x` is removed afterwards.
pub proof fn lemma_synth_let(fuel: nat, n: nat, c: Seq<CtxElemV>, x: Name, e0: Expr, e1: Expr)
    requires
        fuel > 0,
    ensures
        synth_spec(fuel, n, c, Expr::Let(x, Box::new(e0), Box::new(e1))) == (match synth_spec(
            (fuel - 1) as nat,
            n,
            c,
            e0,
        ) {
            Err(err) => Err(err),
            Ok((t0, c1, n1)) => if c1.len() >= usize::MAX {
                Err(TypeError::Exhausted)
            } else {
                match synth_spec((fuel - 1) as nat, n1, c1.push(CtxElemV::TypedVar(x@, t0)), e1) {
                    Err(err) => Err(err),
                    Ok((t1, c3, n3)) => if c3.contains(CtxElemV::TypedVar(x@, t0)) {
                        Ok((t1, ctx_insert(c3, CtxElemV::TypedVar(x@, t0), Seq::empty()), n3))
                    } else {
                        Err(TypeError::Rejected)
                    },
                }
            },
        }),
{
}

/// Checking against `∀a. A` checks against `A` with the type variable `a` in
/// scope, and closes that scope again.
pub proof fn lemma_check_forall(fuel: nat, n: nat, c: Seq<CtxElemV>, e: Expr, a: NameV, t: TypeV)
    requires
        fuel > 0,
        wf(c, TypeV::Forall(a, Box::new(t))),
        c.len() < usize::MAX,
    ensures
        check_spec(fuel, n, c, e, TypeV::Forall(a, Box::new(t))) == (match check_spec(
            (fuel - 1) as nat,
            n,
            c.push(CtxElemV::Var(a)),
            e,
            t,
        ) {
            Err(err) => Err(err),
            Ok((c2, n2)) => if c2.contains(CtxElemV::Var(a)) {
                Ok((ctx_before(c2, CtxElemV::Var(a)), n2))
            } else {
                Err(TypeError::Rejected)
            },
        }),
{
}

/// A pair checks against `A × B` when its first part checks against `A` and
/// then its second part against `B`.
pub proof fn lemma_check_pair(fuel: nat, n: nat, c: Seq<CtxElemV>, e0: Expr, e1: Expr, a: TypeV, b: TypeV)
    requires
        fuel > 0,
        wf(c, TypeV::Tup(Box::new(a), Box::new(b))),
    ensures
        check_spec(fuel, n, c, Expr::Tup(Box::new(e0), Box::new(e1)), TypeV::Tup(Box::new(a), Box::new(b)))
            == (match check_spec((fuel - 1) as nat, n, c, e0, a) {
            Err(err) => Err(err),
            Ok((c1, n1)) => check_spec((fuel - 1) as nat, n1, c1, e1, b),
        }),
{
}

/// An expression that synthesizes a type without existentials or
/// quantifiers checks against such a type only when the two are equal
/// (where no other checking rule applies), and then leaves the context that
/// synthesis left.
pub proof fn lemma_check_sub_ground(
    fuel: nat,
    n: nat,
    c: Seq<CtxElemV>,
    e: Expr,
    b: TypeV,
    t1: TypeV,
    c1: Seq<CtxElemV>,
    n1: nat,
)
    requires
        fuel > 0,
        !(e is Lit && b is Lit),
        !(e is Abs && b is Fun),
        !(e is Tup && b is Tup),
        !(b is Forall),
        ground(b),
        synth_spec((fuel - 1) as nat, n, c, e) == Ok::<(TypeV, Seq<CtxElemV>, nat), TypeError>((t1, c1, n1)),
        apply_spec((fuel - 1) as nat, t1, c1) is Ok,
        ground(apply_spec((fuel - 1) as nat, t1, c1)->Ok_0),
    ensures
        check_spec(fuel, n, c, e, b) matches Ok((d, m)) ==> apply_spec((fuel - 1) as nat, t1, c1)
            == Ok::<TypeV, TypeError>(b) && d == c1 && m == n1,
{
    let f = (fuel - 1) as nat;
    let a = apply_spec(f, t1, c1)->Ok_0;
    lemma_ground_no_solved(b, c1);
    lemma_apply_unsolved(f, b, c1);
    lemma_subtype_ground(f, n1, c1, a, b);
}

/// Applying a function of type `∀a. A` applies one of type `A` with `a`
/// replaced by a fresh existential declared at the end of the context.
pub proof fn lemma_app_synth_forall(fuel: nat, n: nat, c: Seq<CtxElemV>, a: NameV, t: TypeV, e: Expr)
    requires
        fuel > 0,
        n + 1 <= usize::MAX,
        c.len() < usize::MAX,
    ensures
        app_synth_spec(fuel, n, c, TypeV::Forall(a, Box::new(t)), e) == app_synth_spec(
            (fuel - 1) as nat,
            n + 1,
            c.push(CtxElemV::Exists(NameV::Index(n))),
            subst(t, a, exists_v(NameV::Index(n))),
            e,
        ),
{
}

/// Subtyping against `∀a. B` is subtyping against `B` with the type variable
/// `a` in scope, whose scope is closed again.
pub proof fn lemma_subtype_forall_right(fuel: nat, n: nat, c: Seq<CtxElemV>, t0: TypeV, a: NameV, t: TypeV)
    requires
        fuel > 0,
        wf(c, t0),
        wf(c, TypeV::Forall(a, Box::new(t))),
        !(t0 matches TypeV::Exists(x) && TypeV::Forall(a, Box::new(t)) matches TypeV::Exists(y) && x == y),
        c.len() < usize::MAX,
    ensures
        subtype_spec(fuel, n, c, t0, TypeV::Forall(a, Box::new(t))) == (match subtype_spec(
            (fuel - 1) as nat,
            n,
            c.push(CtxElemV::Var(a)),
            t0,
            t,
        ) {
            Err(err) => Err(err),
            Ok((c2, n2)) => if c2.contains(CtxElemV::Var(a)) {
                Ok((ctx_before(c2, CtxElemV::Var(a)), n2))
            } else {
                Err(TypeError::Rejected)
            },
        }),
{
}

} // verus!
