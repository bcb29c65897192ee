//! Freshness of generated existentials: every judgment keeps all generated
//! names of its context below the counter, so the next name it hands out
//! occurs nowhere yet, and every unsolved existential it leaves in its
//! output context was either in its input context or generated by it.
use vstd::prelude::*;
use crate::syntax::{NameV, TypeV, Expr, subst, is_mono, occurs};
use crate::context::{
    CtxElemV, ctx_insert, ctx_before, solved_in, annotation_in, wf, first_index,
    lemma_first_index_exists,
};
use crate::algorithm::{
    apply_spec, check_spec, synth_spec, app_synth_spec, subtype_spec, inst_l_spec, inst_r_spec,
    solve, articulate, exists_v,
};

verus! {

/// A generated name is below `n` when its index is.
pub open spec fn name_below(x: NameV, n: nat) -> bool {
    x matches NameV::Index(i) ==> i < n
}

/// Every generated name in `t` is below `n`.
pub open spec fn type_below(t: TypeV, n: nat) -> bool
    decreases t,
{
    match t {
        TypeV::Lit(_) => true,
        TypeV::Var(x) => name_below(x, n),
        TypeV::Exists(x) => name_below(x, n),
        TypeV::Forall(a, b) => name_below(a, n) && type_below(*b, n),
        TypeV::Fun(a, b) => type_below(*a, n) && type_below(*b, n),
        TypeV::Tup(a, b) => type_below(*a, n) && type_below(*b, n),
    }
}

pub open spec fn elem_below(e: CtxElemV, n: nat) -> bool {
    match e {
        CtxElemV::Var(x) => name_below(x, n),
        CtxElemV::Exists(x) => name_below(x, n),
        CtxElemV::Marker(x) => name_below(x, n),
        CtxElemV::Solved(x, t) => name_below(x, n) && type_below(t, n),
        CtxElemV::TypedVar(x, t) => name_below(x, n) && type_below(t, n),
    }
}

/// Every generated name in the context is below `n`.
pub open spec fn ctx_below(c: Seq<CtxElemV>, n: nat) -> bool {
    forall|i: int| 0 <= i < c.len() ==> #[trigger] elem_below(c[i], n)
}

/// Every generated name bound or written in `e` is below `n`.
pub open spec fn expr_below(e: Expr, n: nat) -> bool
    decreases e,
{
    match e {
        Expr::Var(x) => name_below(x@, n),
        Expr::Lit(_) => true,
        Expr::Abs(x, b) => name_below(x@, n) && expr_below(*b, n),
        Expr::App(a, b) => expr_below(*a, n) && expr_below(*b, n),
        Expr::Let(x, a, b) => name_below(x@, n) && expr_below(*a, n) && expr_below(*b, n),
        Expr::Ann(a, t) => expr_below(*a, n) && type_below(t@, n),
        Expr::Tup(a, b) => expr_below(*a, n) && expr_below(*b, n),
    }
}

/// A type whose generated names are below `n` has them below any larger bound.
pub proof fn lemma_type_below_mono(t: TypeV, n: nat, m: nat)
    requires
        type_below(t, n),
        n <= m,
    ensures
        type_below(t, m),
    decreases t,
{
    match t {
        TypeV::Forall(_, b) => lemma_type_below_mono(*b, n, m),
        TypeV::Fun(a, b) => {
            lemma_type_below_mono(*a, n, m);
            lemma_type_below_mono(*b, n, m);
        },
        TypeV::Tup(a, b) => {
            lemma_type_below_mono(*a, n, m);
            lemma_type_below_mono(*b, n, m);
        },
        _ => {},
    }
}

proof fn lemma_elem_below_mono(e: CtxElemV, n: nat, m: nat)
    requires
        elem_below(e, n),
        n <= m,
    ensures
        elem_below(e, m),
{
    match e {
        CtxElemV::Solved(_, t) => lemma_type_below_mono(t, n, m),
        CtxElemV::TypedVar(_, t) => lemma_type_below_mono(t, n, m),
        _ => {},
    }
}

proof fn lemma_ctx_below_mono(c: Seq<CtxElemV>, n: nat, m: nat)
    requires
        ctx_below(c, n),
        n <= m,
    ensures
        ctx_below(c, m),
{
    assert forall|i: int| 0 <= i < c.len() implies #[trigger] elem_below(c[i], m) by {
        lemma_elem_below_mono(c[i], n, m);
    }
}

proof fn lemma_expr_below_mono(e: Expr, n: nat, m: nat)
    requires
        expr_below(e, n),
        n <= m,
    ensures
        expr_below(e, m),
    decreases e,
{
    match e {
        Expr::Abs(_, b) => lemma_expr_below_mono(*b, n, m),
        Expr::App(a, b) => {
            lemma_expr_below_mono(*a, n, m);
            lemma_expr_below_mono(*b, n, m);
        },
        Expr::Let(_, a, b) => {
            lemma_expr_below_mono(*a, n, m);
            lemma_expr_below_mono(*b, n, m);
        },
        Expr::Ann(a, t) => {
            lemma_expr_below_mono(*a, n, m);
            lemma_type_below_mono(t@, n, m);
        },
        Expr::Tup(a, b) => {
            lemma_expr_below_mono(*a, n, m);
            lemma_expr_below_mono(*b, n, m);
        },
        _ => {},
    }
}

proof fn lemma_push_below(c: Seq<CtxElemV>, e: CtxElemV, n: nat)
    requires
        ctx_below(c, n),
        elem_below(e, n),
    ensures
        ctx_below(c.push(e), n),
{
    assert forall|i: int| 0 <= i < c.push(e).len() implies #[trigger] elem_below(c.push(e)[i], n) by {
        if i < c.len() {
            assert(c.push(e)[i] == c[i]);
        }
    }
}

proof fn lemma_before_below(c: Seq<CtxElemV>, e: CtxElemV, n: nat)
    requires
        ctx_below(c, n),
        c.contains(e),
    ensures
        ctx_below(ctx_before(c, e), n),
{
    lemma_first_index_exists(c, e);
    let d = ctx_before(c, e);
    assert forall|i: int| 0 <= i < d.len() implies #[trigger] elem_below(d[i], n) by {
        assert(d[i] == c[i]);
    }
}

proof fn lemma_insert_below(c: Seq<CtxElemV>, e: CtxElemV, ins: Seq<CtxElemV>, n: nat)
    requires
        ctx_below(c, n),
        ctx_below(ins, n),
        c.contains(e),
    ensures
        ctx_below(ctx_insert(c, e, ins), n),
{
    lemma_first_index_exists(c, e);
    let k = first_index(c, e);
    let d = ctx_insert(c, e, ins);
    assert forall|i: int| 0 <= i < d.len() implies #[trigger] elem_below(d[i], n) by {
        if i < k {
            assert(d[i] == c[i]);
        } else if i < k + ins.len() {
            assert(d[i] == ins[i - k]);
        } else {
            assert(d[i] == c[i - ins.len() + 1]);
        }
    }
}

proof fn lemma_subst_below(t: TypeV, x: NameV, r: TypeV, n: nat)
    requires
        type_below(t, n),
        type_below(r, n),
    ensures
        type_below(subst(t, x, r), n),
    decreases t,
{
    match t {
        TypeV::Forall(_, b) => lemma_subst_below(*b, x, r, n),
        TypeV::Fun(a, b) => {
            lemma_subst_below(*a, x, r, n);
            lemma_subst_below(*b, x, r, n);
        },
        TypeV::Tup(a, b) => {
            lemma_subst_below(*a, x, r, n);
            lemma_subst_below(*b, x, r, n);
        },
        _ => {},
    }
}

proof fn lemma_solved_below(c: Seq<CtxElemV>, x: NameV, n: nat)
    requires
        ctx_below(c, n),
    ensures
        solved_in(c, x) matches Some(t) ==> type_below(t, n),
    decreases c.len(),
{
    if c.len() > 0 {
        assert(elem_below(c[0], n));
        assert forall|i: int| 0 <= i < c.drop_first().len() implies #[trigger] elem_below(
            c.drop_first()[i],
            n,
        ) by {
            assert(c.drop_first()[i] == c[i + 1]);
        }
        lemma_solved_below(c.drop_first(), x, n);
    }
}

proof fn lemma_annotation_below(c: Seq<CtxElemV>, x: NameV, n: nat)
    requires
        ctx_below(c, n),
    ensures
        annotation_in(c, x) matches Some(t) ==> type_below(t, n),
    decreases c.len(),
{
    if c.len() > 0 {
        assert(elem_below(c[0], n));
        assert forall|i: int| 0 <= i < c.drop_first().len() implies #[trigger] elem_below(
            c.drop_first()[i],
            n,
        ) by {
            assert(c.drop_first()[i] == c[i + 1]);
        }
        lemma_annotation_below(c.drop_first(), x, n);
    }
}

/// Applying a context keeps generated names below the counter.
pub proof fn lemma_apply_below(fuel: nat, t: TypeV, c: Seq<CtxElemV>, n: nat)
    requires
        type_below(t, n),
        ctx_below(c, n),
    ensures
        apply_spec(fuel, t, c) matches Ok(r) ==> type_below(r, n),
    decreases fuel, t,
{
    match t {
        TypeV::Exists(ex) => {
            lemma_solved_below(c, ex, n);
            if let Some(t1) = solved_in(c, ex) {
                if fuel > 0 {
                    lemma_apply_below((fuel - 1) as nat, t1, c, n);
                }
            }
        },
        TypeV::Fun(a, b) => {
            lemma_apply_below(fuel, *a, c, n);
            lemma_apply_below(fuel, *b, c, n);
        },
        TypeV::Tup(a, b) => {
            lemma_apply_below(fuel, *a, c, n);
            lemma_apply_below(fuel, *b, c, n);
        },
        TypeV::Forall(_, b) => lemma_apply_below(fuel, *b, c, n),
        _ => {},
    }
}

/// The name `Index(n)` occurs in no context whose generated names are below `n`.
pub proof fn lemma_fresh_not_in(c: Seq<CtxElemV>, n: nat)
    requires
        ctx_below(c, n),
    ensures
        !c.contains(CtxElemV::Exists(NameV::Index(n))),
        !c.contains(CtxElemV::Marker(NameV::Index(n))),
        solved_in(c, NameV::Index(n)) is None,
    decreases c.len(),
{
    if c.contains(CtxElemV::Exists(NameV::Index(n))) {
        let k = choose|k: int| 0 <= k < c.len() && c[k] == CtxElemV::Exists(NameV::Index(n));
        assert(elem_below(c[k], n));
    }
    if c.contains(CtxElemV::Marker(NameV::Index(n))) {
        let k = choose|k: int| 0 <= k < c.len() && c[k] == CtxElemV::Marker(NameV::Index(n));
        assert(elem_below(c[k], n));
    }
    if c.len() > 0 {
        assert(elem_below(c[0], n));
        assert forall|i: int| 0 <= i < c.drop_first().len() implies #[trigger] elem_below(
            c.drop_first()[i],
            n,
        ) by {
            assert(c.drop_first()[i] == c[i + 1]);
        }
        lemma_fresh_not_in(c.drop_first(), n);
    }
}

/// Checking keeps every generated name of the context below the counter.
pub proof fn lemma_check_fresh(fuel: nat, n: nat, c: Seq<CtxElemV>, e: Expr, t: TypeV)
    requires
        ctx_below(c, n),
        expr_below(e, n),
        type_below(t, n),
    ensures
        check_spec(fuel, n, c, e, t) matches Ok((c2, m)) ==> m >= n && ctx_below(c2, m),
    decreases fuel,
{
    if fuel > 0 && wf(c, t) {
        let f = (fuel - 1) as nat;
        match (e, t) {
            (Expr::Lit(l), TypeV::Lit(lt)) => {},
            (Expr::Abs(x, body), TypeV::Fun(t0, t1)) => {
                let elem = CtxElemV::TypedVar(x@, *t0);
                lemma_push_below(c, elem, n);
                lemma_check_fresh(f, n, c.push(elem), *body, *t1);
                if let Ok((c2, n2)) = check_spec(f, n, c.push(elem), *body, *t1) {
                    if c2.contains(elem) {
                        lemma_before_below(c2, elem, n2);
                    }
                }
            },
            (_, TypeV::Forall(a, t2)) => {
                let elem = CtxElemV::Var(a);
                lemma_push_below(c, elem, n);
                lemma_check_fresh(f, n, c.push(elem), e, *t2);
                if let Ok((c2, n2)) = check_spec(f, n, c.push(elem), e, *t2) {
                    if c2.contains(elem) {
                        lemma_before_below(c2, elem, n2);
                    }
                }
            },
            (Expr::Tup(e0, e1), TypeV::Tup(t0, t1)) => {
                lemma_check_fresh(f, n, c, *e0, *t0);
                if let Ok((c1, n1)) = check_spec(f, n, c, *e0, *t0) {
                    lemma_expr_below_mono(*e1, n, n1);
                    lemma_type_below_mono(*t1, n, n1);
                    lemma_check_fresh(f, n1, c1, *e1, *t1);
                }
            },
            _ => {
                lemma_synth_fresh(f, n, c, e);
                if let Ok((t1, c1, n1)) = synth_spec(f, n, c, e) {
                    lemma_apply_below(f, t1, c1, n1);
                    lemma_type_below_mono(t, n, n1);
                    lemma_apply_below(f, t, c1, n1);
                    if let Ok(t2) = apply_spec(f, t1, c1) {
                        if let Ok(t3) = apply_spec(f, t, c1) {
                            lemma_subtype_fresh(f, n1, c1, t2, t3);
                        }
                    }
                }
            },
        }
    }
}

/// Synthesis keeps every generated name of the context and of the type below
/// the counter.
pub proof fn lemma_synth_fresh(fuel: nat, n: nat, c: Seq<CtxElemV>, e: Expr)
    requires
        ctx_below(c, n),
        expr_below(e, n),
    ensures
        synth_spec(fuel, n, c, e) matches Ok((t, c2, m)) ==> m >= n && type_below(t, m)
            && ctx_below(c2, m),
    decreases fuel,
{
    if fuel > 0 {
        let f = (fuel - 1) as nat;
        match e {
            Expr::Var(x) => {
                lemma_annotation_below(c, x@, n);
            },
            Expr::Ann(e1, t) => {
                if wf(c, t@) {
                    lemma_check_fresh(f, n, c, *e1, t@);
                    if let Ok((c1, n1)) = check_spec(f, n, c, *e1, t@) {
                        lemma_type_below_mono(t@, n, n1);
                    }
                }
            },
            Expr::Abs(x, body) => {
                if !(n + 2 > usize::MAX || c.len() + 3 > usize::MAX) {
                    let m = n + 2;
                    let ex0 = NameV::Index(n);
                    let ex1 = NameV::Index(n + 1);
                    let tv = CtxElemV::TypedVar(x@, exists_v(ex0));
                    lemma_ctx_below_mono(c, n, m);
                    lemma_push_below(c, CtxElemV::Exists(ex0), m);
                    lemma_push_below(c.push(CtxElemV::Exists(ex0)), CtxElemV::Exists(ex1), m);
                    lemma_push_below(
                        c.push(CtxElemV::Exists(ex0)).push(CtxElemV::Exists(ex1)),
                        tv,
                        m,
                    );
                    let c1 = c.push(CtxElemV::Exists(ex0)).push(CtxElemV::Exists(ex1)).push(tv);
                    lemma_expr_below_mono(*body, n, m);
                    lemma_check_fresh(f, m, c1, *body, exists_v(ex1));
                    if let Ok((c2, n2)) = check_spec(f, m, c1, *body, exists_v(ex1)) {
                        if c2.contains(tv) {
                            lemma_before_below(c2, tv, n2);
                        }
                        assert(type_below(
                            TypeV::Fun(Box::new(exists_v(ex0)), Box::new(exists_v(ex1))),
                            n2,
                        )) by {
                            reveal_with_fuel(type_below, 2);
                        }
                    }
                }
            },
            Expr::Tup(e0, e1) => {
                lemma_synth_fresh(f, n, c, *e0);
                if let Ok((t1, c1, n1)) = synth_spec(f, n, c, *e0) {
                    lemma_expr_below_mono(*e1, n, n1);
                    lemma_synth_fresh(f, n1, c1, *e1);
                    if let Ok((t2, c2, n2)) = synth_spec(f, n1, c1, *e1) {
                        lemma_type_below_mono(t1, n1, n2);
                    }
                }
            },
            Expr::Let(x, e0, e1) => {
                lemma_synth_fresh(f, n, c, *e0);
                if let Ok((t0, c1, n1)) = synth_spec(f, n, c, *e0) {
                    if c1.len() < usize::MAX {
                        let tv = CtxElemV::TypedVar(x@, t0);
                        lemma_push_below(c1, tv, n1);
                        lemma_expr_below_mono(*e1, n, n1);
                        lemma_synth_fresh(f, n1, c1.push(tv), *e1);
                        if let Ok((t1, c3, n3)) = synth_spec(f, n1, c1.push(tv), *e1) {
                            if c3.contains(tv) {
                                assert(ctx_below(Seq::<CtxElemV>::empty(), n3));
                                lemma_insert_below(c3, tv, Seq::empty(), n3);
                            }
                        }
                    }
                }
            },
            Expr::App(e0, e1) => {
                lemma_synth_fresh(f, n, c, *e0);
                if let Ok((t, c1, n1)) = synth_spec(f, n, c, *e0) {
                    lemma_apply_below(f, t, c1, n1);
                    if let Ok(ta) = apply_spec(f, t, c1) {
                        lemma_expr_below_mono(*e1, n, n1);
                        lemma_app_synth_fresh(f, n1, c1, ta, *e1);
                    }
                }
            },
            _ => {},
        }
    }
}

/// Application synthesis keeps every generated name of the context and of the
/// type below the counter.
pub proof fn lemma_app_synth_fresh(fuel: nat, n: nat, c: Seq<CtxElemV>, t: TypeV, e: Expr)
    requires
        ctx_below(c, n),
        type_below(t, n),
        expr_below(e, n),
    ensures
        app_synth_spec(fuel, n, c, t, e) matches Ok((t2, c2, m)) ==> m >= n && type_below(t2, m)
            && ctx_below(c2, m),
    decreases fuel,
{
    if fuel > 0 {
        let f = (fuel - 1) as nat;
        match t {
            TypeV::Exists(ex0) => {
                let ex1 = NameV::Index(n);
                let ex2 = NameV::Index(n + 1);
                if n + 2 <= usize::MAX && c.contains(CtxElemV::Exists(ex0)) && c.len() + 2
                    <= usize::MAX {
                    let m = n + 2;
                    lemma_articulate_below(c, ex0, ex1, ex2, true, n, m);
                    lemma_expr_below_mono(e, n, m);
                    lemma_check_fresh(f, m, articulate(c, ex0, ex1, ex2, true), e, exists_v(ex1));
                }
            },
            TypeV::Forall(a0, t0) => {
                if !(n + 1 > usize::MAX || c.len() >= usize::MAX) {
                    let m = n + 1;
                    let ex0 = NameV::Index(n);
                    lemma_ctx_below_mono(c, n, m);
                    lemma_push_below(c, CtxElemV::Exists(ex0), m);
                    lemma_type_below_mono(*t0, n, m);
                    lemma_subst_below(*t0, a0, exists_v(ex0), m);
                    lemma_expr_below_mono(e, n, m);
                    lemma_app_synth_fresh(
                        f,
                        m,
                        c.push(CtxElemV::Exists(ex0)),
                        subst(*t0, a0, exists_v(ex0)),
                        e,
                    );
                }
            },
            TypeV::Fun(t0, t1) => {
                lemma_check_fresh(f, n, c, e, *t0);
                if let Ok((c1, n1)) = check_spec(f, n, c, e, *t0) {
                    lemma_type_below_mono(*t1, n, n1);
                }
            },
            _ => {},
        }
    }
}

/// Articulating an existential of a context whose names are below `n`, with
/// two new names below `m`, gives a context whose names are below `m`.
pub proof fn lemma_articulate_below(
    c: Seq<CtxElemV>,
    ex0: NameV,
    ex1: NameV,
    ex2: NameV,
    fun: bool,
    n: nat,
    m: nat,
)
    requires
        ctx_below(c, n),
        c.contains(CtxElemV::Exists(ex0)),
        name_below(ex0, n),
        name_below(ex1, m),
        name_below(ex2, m),
        n <= m,
    ensures
        ctx_below(articulate(c, ex0, ex1, ex2, fun), m),
{
    let t = if fun {
        TypeV::Fun(Box::new(exists_v(ex1)), Box::new(exists_v(ex2)))
    } else {
        TypeV::Tup(Box::new(exists_v(ex1)), Box::new(exists_v(ex2)))
    };
    let ins = seq![CtxElemV::Exists(ex2), CtxElemV::Exists(ex1), CtxElemV::Solved(ex0, t)];
    assert(type_below(t, m)) by {
        reveal_with_fuel(type_below, 2);
    }
    assert(elem_below(ins[0], m));
    assert(elem_below(ins[1], m));
    assert(elem_below(ins[2], m));
    assert forall|i: int| 0 <= i < ins.len() implies #[trigger] elem_below(ins[i], m) by {
        if i == 0 {
        } else if i == 1 {
        } else {
        }
    }
    lemma_ctx_below_mono(c, n, m);
    lemma_insert_below(c, CtxElemV::Exists(ex0), ins, m);
}

proof fn lemma_solve_below(c: Seq<CtxElemV>, ex: NameV, t: TypeV, n: nat)
    requires
        ctx_below(c, n),
        c.contains(CtxElemV::Exists(ex)),
        name_below(ex, n),
        type_below(t, n),
    ensures
        ctx_below(solve(c, ex, t), n),
{
    let ins = seq![CtxElemV::Solved(ex, t)];
    assert(elem_below(ins[0], n));
    assert(ctx_below(ins, n));
    lemma_insert_below(c, CtxElemV::Exists(ex), ins, n);
}

/// Subtyping keeps every generated name of the context below the counter.
pub proof fn lemma_subtype_fresh(fuel: nat, n: nat, c: Seq<CtxElemV>, t0: TypeV, t1: TypeV)
    requires
        ctx_below(c, n),
        type_below(t0, n),
        type_below(t1, n),
    ensures
        subtype_spec(fuel, n, c, t0, t1) matches Ok((c2, m)) ==> m >= n && ctx_below(c2, m),
    decreases fuel,
{
    if fuel > 0 && wf(c, t0) && wf(c, t1) {
        let f = (fuel - 1) as nat;
        match (t0, t1) {
            (TypeV::Lit(a), TypeV::Lit(b)) => {},
            (TypeV::Var(a0), TypeV::Var(a1)) => {},
            (TypeV::Exists(ex0), TypeV::Exists(ex1)) if ex0 == ex1 => {},
            (TypeV::Fun(ta1, ta2), TypeV::Fun(tb1, tb2)) => {
                lemma_subtype_fresh(f, n, c, *tb1, *ta1);
                if let Ok((c1, n1)) = subtype_spec(f, n, c, *tb1, *ta1) {
                    lemma_type_below_mono(*ta2, n, n1);
                    lemma_type_below_mono(*tb2, n, n1);
                    lemma_apply_below(f, *ta2, c1, n1);
                    lemma_apply_below(f, *tb2, c1, n1);
                    if let Ok(a2) = apply_spec(f, *ta2, c1) {
                        if let Ok(b2) = apply_spec(f, *tb2, c1) {
                            lemma_subtype_fresh(f, n1, c1, a2, b2);
                        }
                    }
                }
            },
            (TypeV::Tup(ta1, ta2), TypeV::Tup(tb1, tb2)) => {
                lemma_subtype_fresh(f, n, c, *ta1, *tb1);
                if let Ok((c1, n1)) = subtype_spec(f, n, c, *ta1, *tb1) {
                    lemma_type_below_mono(*ta2, n, n1);
                    lemma_type_below_mono(*tb2, n, n1);
                    lemma_subtype_fresh(f, n1, c1, *ta2, *tb2);
                }
            },
            (_, TypeV::Forall(a, t2)) => {
                if c.len() < usize::MAX {
                    lemma_push_below(c, CtxElemV::Var(a), n);
                    lemma_subtype_fresh(f, n, c.push(CtxElemV::Var(a)), t0, *t2);
                    if let Ok((c2, n2)) = subtype_spec(f, n, c.push(CtxElemV::Var(a)), t0, *t2) {
                        if c2.contains(CtxElemV::Var(a)) {
                            lemma_before_below(c2, CtxElemV::Var(a), n2);
                        }
                    }
                }
            },
            (TypeV::Forall(a, t2), _) => {
                if !(n + 1 > usize::MAX || c.len() + 2 > usize::MAX) {
                    let m = n + 1;
                    let ex0 = NameV::Index(n);
                    lemma_ctx_below_mono(c, n, m);
                    lemma_push_below(c, CtxElemV::Marker(ex0), m);
                    lemma_push_below(c.push(CtxElemV::Marker(ex0)), CtxElemV::Exists(ex0), m);
                    let c1 = c.push(CtxElemV::Marker(ex0)).push(CtxElemV::Exists(ex0));
                    lemma_type_below_mono(*t2, n, m);
                    lemma_type_below_mono(t1, n, m);
                    lemma_subst_below(*t2, a, exists_v(ex0), m);
                    lemma_subtype_fresh(f, m, c1, subst(*t2, a, exists_v(ex0)), t1);
                    if let Ok((c2, n2)) = subtype_spec(f, m, c1, subst(*t2, a, exists_v(ex0)), t1) {
                        if c2.contains(CtxElemV::Marker(ex0)) {
                            lemma_before_below(c2, CtxElemV::Marker(ex0), n2);
                        }
                    }
                }
            },
            (TypeV::Exists(ex0), _) => {
                if !occurs(ex0, t1) {
                    lemma_inst_l_fresh(f, n, c, ex0, t1);
                }
            },
            (_, TypeV::Exists(ex0)) => {
                if !occurs(ex0, t0) {
                    lemma_inst_r_fresh(f, n, c, t0, ex0);
                }
            },
            _ => {},
        }
    }
}

/// Left instantiation keeps every generated name of the context below the
/// counter.
pub proof fn lemma_inst_l_fresh(fuel: nat, n: nat, c: Seq<CtxElemV>, ex0: NameV, t: TypeV)
    requires
        ctx_below(c, n),
        name_below(ex0, n),
        type_below(t, n),
    ensures
        inst_l_spec(fuel, n, c, ex0, t) matches Ok((c2, m)) ==> m >= n && ctx_below(c2, m),
    decreases fuel,
{
    if fuel > 0 && c.contains(CtxElemV::Exists(ex0)) {
        if is_mono(t) && wf(ctx_before(c, CtxElemV::Exists(ex0)), t) {
            lemma_solve_below(c, ex0, t, n);
        } else {
            let f = (fuel - 1) as nat;
            match t {
                TypeV::Fun(t1, t2) => {
                    if !(n + 2 > usize::MAX || c.len() + 2 > usize::MAX) {
                        let m = n + 2;
                        let ex1 = NameV::Index(n);
                        let ex2 = NameV::Index(n + 1);
                        let c1 = articulate(c, ex0, ex1, ex2, true);
                        lemma_articulate_below(c, ex0, ex1, ex2, true, n, m);
                        lemma_type_below_mono(*t1, n, m);
                        lemma_type_below_mono(*t2, n, m);
                        lemma_inst_r_fresh(f, m, c1, *t1, ex1);
                        if let Ok((c2, n2)) = inst_r_spec(f, m, c1, *t1, ex1) {
                            lemma_type_below_mono(*t2, m, n2);
                            lemma_apply_below(f, *t2, c2, n2);
                            if let Ok(t3) = apply_spec(f, *t2, c2) {
                                lemma_inst_l_fresh(f, n2, c2, ex2, t3);
                            }
                        }
                    }
                },
                TypeV::Forall(a, t1) => {
                    if c.len() < usize::MAX {
                        lemma_push_below(c, CtxElemV::Var(a), n);
                        lemma_inst_l_fresh(f, n, c.push(CtxElemV::Var(a)), ex0, *t1);
                        if let Ok((c1, n1)) = inst_l_spec(f, n, c.push(CtxElemV::Var(a)), ex0, *t1) {
                            if c1.contains(CtxElemV::Var(a)) {
                                lemma_before_below(c1, CtxElemV::Var(a), n1);
                            }
                        }
                    }
                },
                TypeV::Exists(ex1) => {
                    if c.contains(CtxElemV::Exists(ex1)) {
                        lemma_solve_below(c, ex1, exists_v(ex0), n);
                    }
                },
                _ => {},
            }
        }
    }
}

/// Right instantiation keeps every generated name of the context below the
/// counter.
pub proof fn lemma_inst_r_fresh(fuel: nat, n: nat, c: Seq<CtxElemV>, t: TypeV, ex0: NameV)
    requires
        ctx_below(c, n),
        name_below(ex0, n),
        type_below(t, n),
    ensures
        inst_r_spec(fuel, n, c, t, ex0) matches Ok((c2, m)) ==> m >= n && ctx_below(c2, m),
    decreases fuel,
{
    if fuel > 0 && c.contains(CtxElemV::Exists(ex0)) {
        if is_mono(t) && wf(ctx_before(c, CtxElemV::Exists(ex0)), t) {
            lemma_solve_below(c, ex0, t, n);
        } else {
            let f = (fuel - 1) as nat;
            match t {
                TypeV::Fun(t0, t1) => {
                    if !(n + 2 > usize::MAX || c.len() + 2 > usize::MAX) {
                        let m = n + 2;
                        let ex1 = NameV::Index(n);
                        let ex2 = NameV::Index(n + 1);
                        let c1 = articulate(c, ex0, ex1, ex2, true);
                        lemma_articulate_below(c, ex0, ex1, ex2, true, n, m);
                        lemma_type_below_mono(*t0, n, m);
                        lemma_inst_l_fresh(f, m, c1, ex1, *t0);
                        if let Ok((c2, n2)) = inst_l_spec(f, m, c1, ex1, *t0) {
                            lemma_type_below_mono(*t1, n, n2);
                            lemma_apply_below(f, *t1, c2, n2);
                            if let Ok(t3) = apply_spec(f, *t1, c2) {
                                lemma_inst_r_fresh(f, n2, c2, t3, ex2);
                            }
                        }
                    }
                },
                TypeV::Tup(t0, t1) => {
                    if !(n + 2 > usize::MAX || c.len() + 2 > usize::MAX) {
                        let m = n + 2;
                        let ex1 = NameV::Index(n);
                        let ex2 = NameV::Index(n + 1);
                        let c1 = articulate(c, ex0, ex1, ex2, false);
                        lemma_articulate_below(c, ex0, ex1, ex2, false, n, m);
                        lemma_type_below_mono(*t0, n, m);
                        lemma_inst_l_fresh(f, m, c1, ex1, *t0);
                        if let Ok((c2, n2)) = inst_l_spec(f, m, c1, ex1, *t0) {
                            lemma_type_below_mono(*t1, n, n2);
                            lemma_apply_below(f, *t1, c2, n2);
                            if let Ok(t3) = apply_spec(f, *t1, c2) {
                                lemma_inst_r_fresh(f, n2, c2, t3, ex2);
                            }
                        }
                    }
                },
                TypeV::Forall(a, t1) => {
                    if !(n + 1 > usize::MAX || c.len() + 2 > usize::MAX) {
                        let m = n + 1;
                        let ex1 = NameV::Index(n);
                        lemma_ctx_below_mono(c, n, m);
                        lemma_push_below(c, CtxElemV::Marker(ex1), m);
                        lemma_push_below(c.push(CtxElemV::Marker(ex1)), CtxElemV::Exists(ex1), m);
                        let c1 = c.push(CtxElemV::Marker(ex1)).push(CtxElemV::Exists(ex1));
                        lemma_type_below_mono(*t1, n, m);
                        lemma_subst_below(*t1, a, exists_v(ex1), m);
                        lemma_inst_r_fresh(f, m, c1, subst(*t1, a, exists_v(ex1)), ex0);
                        if let Ok((c2, n2)) = inst_r_spec(f, m, c1, subst(*t1, a, exists_v(ex1)), ex0) {
                            if c2.contains(CtxElemV::Marker(ex1)) {
                                lemma_before_below(c2, CtxElemV::Marker(ex1), n2);
                            }
                        }
                    }
                },
                TypeV::Exists(ex1) => {
                    if c.contains(CtxElemV::Exists(ex1)) {
                        lemma_solve_below(c, ex1, exists_v(ex0), n);
                    }
                },
                _ => {},
            }
        }
    }
}

/// `e` declares the unsolved existential `x`.
pub open spec fn declares(e: CtxElemV, x: NameV) -> bool {
    e == CtxElemV::Exists(x)
}

/// Some element of `c` declares the unsolved existential `x`.
pub open spec fn declared(c: Seq<CtxElemV>, x: NameV) -> bool {
    exists|i: int| 0 <= i < c.len() && #[trigger] declares(c[i], x)
}

/// `x` is a generated name of index at least `n` and below `m`.
pub open spec fn name_between(x: NameV, n: nat, m: nat) -> bool {
    x matches NameV::Index(k) && n <= k < m
}

/// Every unsolved existential of `c2` is one of `c1` or a generated name of
/// index at least `n` and below `m`.
pub open spec fn declares_only_new(c1: Seq<CtxElemV>, c2: Seq<CtxElemV>, n: nat, m: nat) -> bool {
    forall|x: NameV| #[trigger] declared(c2, x) ==> declared(c1, x) || name_between(x, n, m)
}

proof fn lemma_declared_push(c: Seq<CtxElemV>, e: CtxElemV, x: NameV)
    ensures
        declared(c.push(e), x) == (declared(c, x) || declares(e, x)),
{
    let d = c.push(e);
    if declared(d, x) {
        let i = choose|i: int| 0 <= i < d.len() && #[trigger] declares(d[i], x);
        if i < c.len() {
            assert(d[i] == c[i]);
            assert(declares(c[i], x));
        }
    }
    if declared(c, x) {
        let i = choose|i: int| 0 <= i < c.len() && #[trigger] declares(c[i], x);
        assert(d[i] == c[i]);
        assert(declares(d[i], x));
    }
    if declares(e, x) {
        assert(d[c.len() as int] == e);
        assert(declares(d[c.len() as int], x));
    }
}

proof fn lemma_declared_before(c: Seq<CtxElemV>, e: CtxElemV, x: NameV)
    requires
        c.contains(e),
    ensures
        declared(ctx_before(c, e), x) ==> declared(c, x),
{
    lemma_first_index_exists(c, e);
    let d = ctx_before(c, e);
    if declared(d, x) {
        let i = choose|i: int| 0 <= i < d.len() && #[trigger] declares(d[i], x);
        assert(d[i] == c[i]);
        assert(declares(c[i], x));
    }
}

proof fn lemma_declared_insert(c: Seq<CtxElemV>, e: CtxElemV, ins: Seq<CtxElemV>, x: NameV)
    requires
        c.contains(e),
    ensures
        declared(ctx_insert(c, e, ins), x) ==> declared(c, x) || declared(ins, x),
{
    lemma_first_index_exists(c, e);
    let k = first_index(c, e);
    let d = ctx_insert(c, e, ins);
    if declared(d, x) {
        let i = choose|i: int| 0 <= i < d.len() && #[trigger] declares(d[i], x);
        if i < k {
            assert(d[i] == c[i]);
            assert(declares(c[i], x));
        } else if i < k + ins.len() {
            assert(d[i] == ins[i - k]);
            assert(declares(ins[i - k], x));
        } else {
            assert(d[i] == c[i - ins.len() + 1]);
            assert(declares(c[i - ins.len() + 1], x));
        }
    }
}

proof fn lemma_declared_exists(c: Seq<CtxElemV>, ex: NameV)
    requires
        c.contains(CtxElemV::Exists(ex)),
    ensures
        declared(c, ex),
{
    let j = choose|j: int| 0 <= j < c.len() && c[j] == CtxElemV::Exists(ex);
    assert(declares(c[j], ex));
}

proof fn lemma_only_new_solve(c: Seq<CtxElemV>, ex: NameV, t: TypeV, n: nat)
    requires
        c.contains(CtxElemV::Exists(ex)),
    ensures
        declares_only_new(c, solve(c, ex, t), n, n),
{
    let ins = seq![CtxElemV::Solved(ex, t)];
    assert forall|x: NameV| #[trigger] declared(solve(c, ex, t), x) implies declared(c, x) || name_between(
        x,
        n,
        n,
    ) by {
        lemma_declared_insert(c, CtxElemV::Exists(ex), ins, x);
        if declared(ins, x) {
            let i = choose|i: int| 0 <= i < ins.len() && #[trigger] declares(ins[i], x);
            assert(i == 0);
        }
    }
}

proof fn lemma_only_new_articulate(c: Seq<CtxElemV>, ex0: NameV, fun: bool, n: nat)
    requires
        c.contains(CtxElemV::Exists(ex0)),
    ensures
        declares_only_new(c, articulate(c, ex0, NameV::Index(n), NameV::Index(n + 1), fun), n, n + 2),
{
    let ex1 = NameV::Index(n);
    let ex2 = NameV::Index(n + 1);
    let t = if fun {
        TypeV::Fun(Box::new(exists_v(ex1)), Box::new(exists_v(ex2)))
    } else {
        TypeV::Tup(Box::new(exists_v(ex1)), Box::new(exists_v(ex2)))
    };
    let ins = seq![CtxElemV::Exists(ex2), CtxElemV::Exists(ex1), CtxElemV::Solved(ex0, t)];
    assert forall|x: NameV| #[trigger] declared(articulate(c, ex0, ex1, ex2, fun), x) implies declared(
        c,
        x,
    ) || name_between(x, n, n + 2) by {
        lemma_declared_insert(c, CtxElemV::Exists(ex0), ins, x);
        if declared(ins, x) {
            let i = choose|i: int| 0 <= i < ins.len() && #[trigger] declares(ins[i], x);
            if i == 2 {
                lemma_declared_exists(c, ex0);
            }
        }
    }
}

/// A scope opened by pushing an element that declares no name, and closed by
/// dropping from it, declares nothing beyond what the inner judgment did.
proof fn lemma_only_new_scope(c: Seq<CtxElemV>, elem: CtxElemV, c2: Seq<CtxElemV>, n: nat, m: nat)
    requires
        elem is Var || elem is TypedVar,
        declares_only_new(c.push(elem), c2, n, m),
        c2.contains(elem),
    ensures
        declares_only_new(c, ctx_before(c2, elem), n, m),
{
    assert forall|x: NameV| #[trigger] declared(ctx_before(c2, elem), x) implies declared(c, x)
        || name_between(x, n, m) by {
        lemma_declared_before(c2, elem, x);
        lemma_declared_push(c, elem, x);
    }
}

/// A scope opened by a marker of the fresh index `n` and its existential.
proof fn lemma_only_new_marker(c: Seq<CtxElemV>, c2: Seq<CtxElemV>, n: nat, m: nat)
    requires
        declares_only_new(
            c.push(CtxElemV::Marker(NameV::Index(n))).push(CtxElemV::Exists(NameV::Index(n))),
            c2,
            n + 1,
            m,
        ),
        c2.contains(CtxElemV::Marker(NameV::Index(n))),
        n + 1 <= m,
    ensures
        declares_only_new(c, ctx_before(c2, CtxElemV::Marker(NameV::Index(n))), n, m),
{
    let mk = CtxElemV::Marker(NameV::Index(n));
    let c1 = c.push(mk);
    assert forall|x: NameV| #[trigger] declared(ctx_before(c2, mk), x) implies declared(c, x)
        || name_between(x, n, m) by {
        lemma_declared_before(c2, mk, x);
        lemma_declared_push(c1, CtxElemV::Exists(NameV::Index(n)), x);
        lemma_declared_push(c, mk, x);
    }
}

/// Checking declares only names of its input context or names it generates.
pub proof fn lemma_check_declares(fuel: nat, n: nat, c: Seq<CtxElemV>, e: Expr, t: TypeV)
    ensures
        check_spec(fuel, n, c, e, t) matches Ok((c2, m)) ==> m >= n && declares_only_new(c, c2, n, m),
    decreases fuel,
{
    if fuel > 0 && wf(c, t) {
        let f = (fuel - 1) as nat;
        match (e, t) {
            (Expr::Lit(l), TypeV::Lit(lt)) => {},
            (Expr::Abs(x, body), TypeV::Fun(t0, t1)) => {
                let elem = CtxElemV::TypedVar(x@, *t0);
                lemma_check_declares(f, n, c.push(elem), *body, *t1);
                if let Ok((c2, n2)) = check_spec(f, n, c.push(elem), *body, *t1) {
                    if c2.contains(elem) {
                        lemma_only_new_scope(c, elem, c2, n, n2);
                    }
                }
            },
            (_, TypeV::Forall(a, t2)) => {
                let elem = CtxElemV::Var(a);
                lemma_check_declares(f, n, c.push(elem), e, *t2);
                if let Ok((c2, n2)) = check_spec(f, n, c.push(elem), e, *t2) {
                    if c2.contains(elem) {
                        lemma_only_new_scope(c, elem, c2, n, n2);
                    }
                }
            },
            (Expr::Tup(e0, e1), TypeV::Tup(t0, t1)) => {
                lemma_check_declares(f, n, c, *e0, *t0);
                if let Ok((c1, n1)) = check_spec(f, n, c, *e0, *t0) {
                    lemma_check_declares(f, n1, c1, *e1, *t1);
                }
            },
            _ => {
                lemma_synth_declares(f, n, c, e);
                if let Ok((t1, c1, n1)) = synth_spec(f, n, c, e) {
                    if let Ok(t2) = apply_spec(f, t1, c1) {
                        if let Ok(t3) = apply_spec(f, t, c1) {
                            lemma_subtype_declares(f, n1, c1, t2, t3);
                        }
                    }
                }
            },
        }
    }
}

/// Synthesis declares only names of its input context or names it generates.
pub proof fn lemma_synth_declares(fuel: nat, n: nat, c: Seq<CtxElemV>, e: Expr)
    ensures
        synth_spec(fuel, n, c, e) matches Ok((t, c2, m)) ==> m >= n && declares_only_new(c, c2, n, m),
    decreases fuel,
{
    if fuel > 0 {
        let f = (fuel - 1) as nat;
        match e {
            Expr::Ann(e1, t) => {
                if wf(c, t@) {
                    lemma_check_declares(f, n, c, *e1, t@);
                }
            },
            Expr::Abs(x, body) => {
                if !(n + 2 > usize::MAX || c.len() + 3 > usize::MAX) {
                    let ex0 = NameV::Index(n);
                    let ex1 = NameV::Index(n + 1);
                    let tv = CtxElemV::TypedVar(x@, exists_v(ex0));
                    let ca = c.push(CtxElemV::Exists(ex0));
                    let cb = ca.push(CtxElemV::Exists(ex1));
                    let c1 = cb.push(tv);
                    lemma_check_declares(f, n + 2, c1, *body, exists_v(ex1));
                    if let Ok((c2, n2)) = check_spec(f, n + 2, c1, *body, exists_v(ex1)) {
                        if c2.contains(tv) {
                            assert forall|y: NameV| #[trigger] declared(ctx_before(c2, tv), y)
                                implies declared(c, y) || name_between(y, n, n2) by {
                                lemma_declared_before(c2, tv, y);
                                lemma_declared_push(cb, tv, y);
                                lemma_declared_push(ca, CtxElemV::Exists(ex1), y);
                                lemma_declared_push(c, CtxElemV::Exists(ex0), y);
                            }
                        }
                    }
                }
            },
            Expr::Tup(e0, e1) => {
                lemma_synth_declares(f, n, c, *e0);
                if let Ok((t1, c1, n1)) = synth_spec(f, n, c, *e0) {
                    lemma_synth_declares(f, n1, c1, *e1);
                }
            },
            Expr::Let(x, e0, e1) => {
                lemma_synth_declares(f, n, c, *e0);
                if let Ok((t0, c1, n1)) = synth_spec(f, n, c, *e0) {
                    if c1.len() < usize::MAX {
                        let tv = CtxElemV::TypedVar(x@, t0);
                        lemma_synth_declares(f, n1, c1.push(tv), *e1);
                        if let Ok((t1, c3, n3)) = synth_spec(f, n1, c1.push(tv), *e1) {
                            if c3.contains(tv) {
                                assert forall|y: NameV| #[trigger] declared(
                                    ctx_insert(c3, tv, Seq::empty()),
                                    y,
                                ) implies declared(c1, y) || name_between(y, n1, n3) by {
                                    lemma_declared_insert(c3, tv, Seq::empty(), y);
                                    lemma_declared_push(c1, tv, y);
                                }
                            }
                        }
                    }
                }
            },
            Expr::App(e0, e1) => {
                lemma_synth_declares(f, n, c, *e0);
                if let Ok((t, c1, n1)) = synth_spec(f, n, c, *e0) {
                    if let Ok(ta) = apply_spec(f, t, c1) {
                        lemma_app_synth_declares(f, n1, c1, ta, *e1);
                    }
                }
            },
            _ => {},
        }
    }
}

/// Application synthesis declares only names of its input context or names
/// it generates.
pub proof fn lemma_app_synth_declares(fuel: nat, n: nat, c: Seq<CtxElemV>, t: TypeV, e: Expr)
    ensures
        app_synth_spec(fuel, n, c, t, e) matches Ok((t2, c2, m)) ==> m >= n && declares_only_new(
            c,
            c2,
            n,
            m,
        ),
    decreases fuel,
{
    if fuel > 0 {
        let f = (fuel - 1) as nat;
        match t {
            TypeV::Exists(ex0) => {
                if n + 2 <= usize::MAX && c.contains(CtxElemV::Exists(ex0)) && c.len() + 2
                    <= usize::MAX {
                    let c1 = articulate(c, ex0, NameV::Index(n), NameV::Index(n + 1), true);
                    lemma_only_new_articulate(c, ex0, true, n);
                    lemma_check_declares(f, n + 2, c1, e, exists_v(NameV::Index(n)));
                }
            },
            TypeV::Forall(a0, t0) => {
                if !(n + 1 > usize::MAX || c.len() >= usize::MAX) {
                    let ex0 = NameV::Index(n);
                    let c1 = c.push(CtxElemV::Exists(ex0));
                    lemma_app_synth_declares(f, n + 1, c1, subst(*t0, a0, exists_v(ex0)), e);
                    assert forall|y: NameV| #[trigger] declared(c1, y) implies declared(c, y)
                        || name_between(y, n, n + 1) by {
                        lemma_declared_push(c, CtxElemV::Exists(ex0), y);
                    }
                }
            },
            TypeV::Fun(t0, t1) => {
                lemma_check_declares(f, n, c, e, *t0);
            },
            _ => {},
        }
    }
}

/// Subtyping declares only names of its input context or names it generates.
pub proof fn lemma_subtype_declares(fuel: nat, n: nat, c: Seq<CtxElemV>, t0: TypeV, t1: TypeV)
    ensures
        subtype_spec(fuel, n, c, t0, t1) matches Ok((c2, m)) ==> m >= n && declares_only_new(
            c,
            c2,
            n,
            m,
        ),
    decreases fuel,
{
    if fuel > 0 && wf(c, t0) && wf(c, t1) {
        let f = (fuel - 1) as nat;
        match (t0, t1) {
            (TypeV::Lit(a), TypeV::Lit(b)) => {},
            (TypeV::Var(a0), TypeV::Var(a1)) => {},
            (TypeV::Exists(ex0), TypeV::Exists(ex1)) if ex0 == ex1 => {},
            (TypeV::Fun(ta1, ta2), TypeV::Fun(tb1, tb2)) => {
                lemma_subtype_declares(f, n, c, *tb1, *ta1);
                if let Ok((c1, n1)) = subtype_spec(f, n, c, *tb1, *ta1) {
                    if let Ok(a2) = apply_spec(f, *ta2, c1) {
                        if let Ok(b2) = apply_spec(f, *tb2, c1) {
                            lemma_subtype_declares(f, n1, c1, a2, b2);
                        }
                    }
                }
            },
            (TypeV::Tup(ta1, ta2), TypeV::Tup(tb1, tb2)) => {
                lemma_subtype_declares(f, n, c, *ta1, *tb1);
                if let Ok((c1, n1)) = subtype_spec(f, n, c, *ta1, *tb1) {
                    lemma_subtype_declares(f, n1, c1, *ta2, *tb2);
                }
            },
            (_, TypeV::Forall(a, t2)) => {
                if c.len() < usize::MAX {
                    let elem = CtxElemV::Var(a);
                    lemma_subtype_declares(f, n, c.push(elem), t0, *t2);
                    if let Ok((c2, n2)) = subtype_spec(f, n, c.push(elem), t0, *t2) {
                        if c2.contains(elem) {
                            lemma_only_new_scope(c, elem, c2, n, n2);
                        }
                    }
                }
            },
            (TypeV::Forall(a, t2), _) => {
                if !(n + 1 > usize::MAX || c.len() + 2 > usize::MAX) {
                    let ex0 = NameV::Index(n);
                    let c1 = c.push(CtxElemV::Marker(ex0)).push(CtxElemV::Exists(ex0));
                    lemma_subtype_declares(f, n + 1, c1, subst(*t2, a, exists_v(ex0)), t1);
                    if let Ok((c2, n2)) = subtype_spec(f, n + 1, c1, subst(*t2, a, exists_v(ex0)), t1) {
                        if c2.contains(CtxElemV::Marker(ex0)) {
                            lemma_only_new_marker(c, c2, n, n2);
                        }
                    }
                }
            },
            (TypeV::Exists(ex0), _) => {
                if !occurs(ex0, t1) {
                    lemma_inst_l_declares(f, n, c, ex0, t1);
                }
            },
            (_, TypeV::Exists(ex0)) => {
                if !occurs(ex0, t0) {
                    lemma_inst_r_declares(f, n, c, t0, ex0);
                }
            },
            _ => {},
        }
    }
}

/// Left instantiation declares only names of its input context or names it
/// generates.
pub proof fn lemma_inst_l_declares(fuel: nat, n: nat, c: Seq<CtxElemV>, ex0: NameV, t: TypeV)
    ensures
        inst_l_spec(fuel, n, c, ex0, t) matches Ok((c2, m)) ==> m >= n && declares_only_new(c, c2, n, m),
    decreases fuel,
{
    if fuel > 0 && c.contains(CtxElemV::Exists(ex0)) {
        if is_mono(t) && wf(ctx_before(c, CtxElemV::Exists(ex0)), t) {
            lemma_only_new_solve(c, ex0, t, n);
        } else {
            let f = (fuel - 1) as nat;
            match t {
                TypeV::Fun(t1, t2) => {
                    if !(n + 2 > usize::MAX || c.len() + 2 > usize::MAX) {
                        let ex1 = NameV::Index(n);
                        let ex2 = NameV::Index(n + 1);
                        let c1 = articulate(c, ex0, ex1, ex2, true);
                        lemma_only_new_articulate(c, ex0, true, n);
                        lemma_inst_r_declares(f, n + 2, c1, *t1, ex1);
                        if let Ok((c2, n2)) = inst_r_spec(f, n + 2, c1, *t1, ex1) {
                            if let Ok(t3) = apply_spec(f, *t2, c2) {
                                lemma_inst_l_declares(f, n2, c2, ex2, t3);
                            }
                        }
                    }
                },
                TypeV::Forall(a, t1) => {
                    if c.len() < usize::MAX {
                        let elem = CtxElemV::Var(a);
                        lemma_inst_l_declares(f, n, c.push(elem), ex0, *t1);
                        if let Ok((c1, n1)) = inst_l_spec(f, n, c.push(elem), ex0, *t1) {
                            if c1.contains(elem) {
                                lemma_only_new_scope(c, elem, c1, n, n1);
                            }
                        }
                    }
                },
                TypeV::Exists(ex1) => {
                    if c.contains(CtxElemV::Exists(ex1)) {
                        lemma_only_new_solve(c, ex1, exists_v(ex0), n);
                    }
                },
                _ => {},
            }
        }
    }
}

/// Right instantiation declares only names of its input context or names it
/// generates.
pub proof fn lemma_inst_r_declares(fuel: nat, n: nat, c: Seq<CtxElemV>, t: TypeV, ex0: NameV)
    ensures
        inst_r_spec(fuel, n, c, t, ex0) matches Ok((c2, m)) ==> m >= n && declares_only_new(c, c2, n, m),
    decreases fuel,
{
    if fuel > 0 && c.contains(CtxElemV::Exists(ex0)) {
        if is_mono(t) && wf(ctx_before(c, CtxElemV::Exists(ex0)), t) {
            lemma_only_new_solve(c, ex0, t, n);
        } else {
            let f = (fuel - 1) as nat;
            match t {
                TypeV::Fun(t0, t1) => {
                    if !(n + 2 > usize::MAX || c.len() + 2 > usize::MAX) {
                        let ex1 = NameV::Index(n);
                        let ex2 = NameV::Index(n + 1);
                        let c1 = articulate(c, ex0, ex1, ex2, true);
                        lemma_only_new_articulate(c, ex0, true, n);
                        lemma_inst_l_declares(f, n + 2, c1, ex1, *t0);
                        if let Ok((c2, n2)) = inst_l_spec(f, n + 2, c1, ex1, *t0) {
                            if let Ok(t3) = apply_spec(f, *t1, c2) {
                                lemma_inst_r_declares(f, n2, c2, t3, ex2);
                            }
                        }
                    }
                },
                TypeV::Tup(t0, t1) => {
                    if !(n + 2 > usize::MAX || c.len() + 2 > usize::MAX) {
                        let ex1 = NameV::Index(n);
                        let ex2 = NameV::Index(n + 1);
                        let c1 = articulate(c, ex0, ex1, ex2, false);
                        lemma_only_new_articulate(c, ex0, false, n);
                        lemma_inst_l_declares(f, n + 2, c1, ex1, *t0);
                        if let Ok((c2, n2)) = inst_l_spec(f, n + 2, c1, ex1, *t0) {
                            if let Ok(t3) = apply_spec(f, *t1, c2) {
                                lemma_inst_r_declares(f, n2, c2, t3, ex2);
                            }
                        }
                    }
                },
                TypeV::Forall(a, t1) => {
                    if !(n + 1 > usize::MAX || c.len() + 2 > usize::MAX) {
                        let ex1 = NameV::Index(n);
                        let c1 = c.push(CtxElemV::Marker(ex1)).push(CtxElemV::Exists(ex1));
                        lemma_inst_r_declares(f, n + 1, c1, subst(*t1, a, exists_v(ex1)), ex0);
                        if let Ok((c2, n2)) = inst_r_spec(f, n + 1, c1, subst(*t1, a, exists_v(ex1)), ex0) {
                            if c2.contains(CtxElemV::Marker(ex1)) {
                                lemma_only_new_marker(c, c2, n, n2);
                            }
                        }
                    }
                },
                TypeV::Exists(ex1) => {
                    if c.contains(CtxElemV::Exists(ex1)) {
                        lemma_only_new_solve(c, ex1, exists_v(ex0), n);
                    }
                },
                _ => {},
            }
        }
    }
}

/// An unsolved existential is declared exactly when the context holds it.
proof fn lemma_declared_contains(c: Seq<CtxElemV>, x: NameV)
    ensures
        declared(c, x) == c.contains(CtxElemV::Exists(x)),
{
    if c.contains(CtxElemV::Exists(x)) {
        lemma_declared_exists(c, x);
    }
    if declared(c, x) {
        let i = choose|i: int| 0 <= i < c.len() && #[trigger] declares(c[i], x);
        assert(c[i] == CtxElemV::Exists(x));
    }
}

/// The existentials that synthesis leaves unsolved in its output and that
/// were not in its input are fresh: generated during the call, with an index
/// from the counter before it up to the counter after it, which never goes
/// back.
pub proof fn lemma_synth_new_names(fuel: nat, n: nat, c: Seq<CtxElemV>, e: Expr)
    ensures
        synth_spec(fuel, n, c, e) matches Ok((t, c2, m)) ==> m >= n && forall|x: NameV|
            #![trigger c2.contains(CtxElemV::Exists(x))]
            c2.contains(CtxElemV::Exists(x)) && !c.contains(CtxElemV::Exists(x)) ==> (x matches NameV::Index(
                k,
            ) && n <= k < m),
{
    lemma_synth_declares(fuel, n, c, e);
    if let Ok((t, c2, m)) = synth_spec(fuel, n, c, e) {
        assert forall|x: NameV|
            #![trigger c2.contains(CtxElemV::Exists(x))]
            c2.contains(CtxElemV::Exists(x)) && !c.contains(CtxElemV::Exists(x)) implies (x matches NameV::Index(
                k,
            ) && n <= k < m) by {
            lemma_declared_contains(c2, x);
            lemma_declared_contains(c, x);
        }
    }
}

} // verus!
