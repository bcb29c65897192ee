//! Soundness of instantiation and subtyping between monotypes: instantiating
//! an existential to a monotype solves it, through the context returned, to
//! that very type, and two monotypes one is a subtype of the other are the
//! same type through the context returned.
use vstd::prelude::*;
use crate::syntax::{NameV, TypeV, is_mono};
use crate::context::{CtxElemV, ctx_insert, ctx_before, solved_in, wf, first_index, lemma_first_index_exists};
use crate::algorithm::{
    TypeError, apply_spec, subtype_spec, inst_l_spec, inst_r_spec, solve, articulate, exists_v,
};
use crate::syntax::occurs;
use crate::laws::{lemma_solved_in_contains, lemma_apply_fuel, lemma_apply_leaves_unsolved, lemma_apply_unsolved};
use crate::freshness::{
    name_below, type_below, ctx_below, elem_below, lemma_articulate_below, lemma_type_below_mono,
    lemma_apply_below, lemma_inst_l_fresh, lemma_inst_r_fresh, lemma_subtype_fresh,
};
use crate::extension::{
    kept, covers, extends, solutions_mono, ordered, lemma_apply_mono, lemma_inst_l_keeps,
    lemma_inst_r_keeps, lemma_subtype_keeps,
};

verus! {

/// The existential that an entry declares, solved or not.
pub open spec fn decl(e: CtxElemV) -> Option<NameV> {
    match e {
        CtxElemV::Exists(x) => Some(x),
        CtxElemV::Solved(x, _) => Some(x),
        _ => None,
    }
}

/// No existential is declared twice in `c`.
pub open spec fn decls_unique(c: Seq<CtxElemV>) -> bool {
    forall|i: int, j: int|
        0 <= i < c.len() && 0 <= j < c.len() && i != j && (#[trigger] decl(c[i])) is Some ==> decl(c[i])
            != #[trigger] decl(c[j])
}

/// In a context that declares every existential once, a solution entry is
/// the solution.
proof fn lemma_unique_solved(c: Seq<CtxElemV>, x: NameV, s: TypeV)
    requires
        decls_unique(c),
        c.contains(CtxElemV::Solved(x, s)),
    ensures
        solved_in(c, x) == Some(s),
{
    lemma_solved_in_contains(c, x);
    let s2 = solved_in(c, x)->Some_0;
    let i = choose|i: int| 0 <= i < c.len() && c[i] == CtxElemV::Solved(x, s);
    let j = choose|j: int| 0 <= j < c.len() && c[j] == CtxElemV::Solved(x, s2);
    assert(decl(c[i]) == decl(c[j]));
}

/// What applying `c2` gives, applying `d` to it gives the same as applying
/// `d` directly, when `d` keeps the solutions of `c2`.
proof fn lemma_apply_compose(g: nat, f: nat, x: TypeV, y: TypeV, z: TypeV, c2: Seq<CtxElemV>, d: Seq<CtxElemV>)
    requires
        decls_unique(d),
        covers(c2, d),
        apply_spec(g, x, c2) == Ok::<TypeV, TypeError>(y),
        apply_spec(f, y, d) == Ok::<TypeV, TypeError>(z),
    ensures
        apply_spec(g + f, x, d) == Ok::<TypeV, TypeError>(z),
    decreases g, x,
{
    match x {
        TypeV::Exists(ex) => {
            match solved_in(c2, ex) {
                Some(s) => {
                    lemma_solved_in_contains(c2, ex);
                    let j = choose|j: int| 0 <= j < c2.len() && c2[j] == CtxElemV::Solved(ex, s);
                    assert(kept(c2[j], d));
                    lemma_unique_solved(d, ex, s);
                    lemma_apply_compose((g - 1) as nat, f, s, y, z, c2, d);
                    assert((g - 1) as nat + f == (g + f - 1) as nat);
                },
                None => {
                    lemma_apply_fuel(f, g + f, y, d);
                },
            }
        },
        TypeV::Fun(a, b) => {
            let ya = apply_spec(g, *a, c2)->Ok_0;
            let yb = apply_spec(g, *b, c2)->Ok_0;
            let za = apply_spec(f, ya, d)->Ok_0;
            let zb = apply_spec(f, yb, d)->Ok_0;
            lemma_apply_compose(g, f, *a, ya, za, c2, d);
            lemma_apply_compose(g, f, *b, yb, zb, c2, d);
        },
        TypeV::Tup(a, b) => {
            let ya = apply_spec(g, *a, c2)->Ok_0;
            let yb = apply_spec(g, *b, c2)->Ok_0;
            let za = apply_spec(f, ya, d)->Ok_0;
            let zb = apply_spec(f, yb, d)->Ok_0;
            lemma_apply_compose(g, f, *a, ya, za, c2, d);
            lemma_apply_compose(g, f, *b, yb, zb, c2, d);
        },
        TypeV::Forall(a, b) => {
            let yb = apply_spec(g, *b, c2)->Ok_0;
            let zb = apply_spec(f, yb, d)->Ok_0;
            lemma_apply_compose(g, f, *b, yb, zb, c2, d);
        },
        _ => {},
    }
}

/// Applying `d` factors through applying a context `c2` whose solutions it
/// keeps.
proof fn lemma_apply_factor(f: nat, x: TypeV, z: TypeV, c2: Seq<CtxElemV>, d: Seq<CtxElemV>)
    requires
        decls_unique(d),
        covers(c2, d),
        apply_spec(f, x, d) == Ok::<TypeV, TypeError>(z),
    ensures
        apply_spec(f, x, c2) is Ok,
        apply_spec(f, apply_spec(f, x, c2)->Ok_0, d) == Ok::<TypeV, TypeError>(z),
    decreases f, x,
{
    match x {
        TypeV::Exists(ex) => {
            match solved_in(c2, ex) {
                Some(s) => {
                    lemma_solved_in_contains(c2, ex);
                    let j = choose|j: int| 0 <= j < c2.len() && c2[j] == CtxElemV::Solved(ex, s);
                    assert(kept(c2[j], d));
                    lemma_unique_solved(d, ex, s);
                    lemma_apply_factor((f - 1) as nat, s, z, c2, d);
                    let y = apply_spec((f - 1) as nat, s, c2)->Ok_0;
                    lemma_apply_fuel((f - 1) as nat, f, y, d);
                },
                None => {},
            }
        },
        TypeV::Fun(a, b) => {
            let za = apply_spec(f, *a, d)->Ok_0;
            let zb = apply_spec(f, *b, d)->Ok_0;
            lemma_apply_factor(f, *a, za, c2, d);
            lemma_apply_factor(f, *b, zb, c2, d);
        },
        TypeV::Tup(a, b) => {
            let za = apply_spec(f, *a, d)->Ok_0;
            let zb = apply_spec(f, *b, d)->Ok_0;
            lemma_apply_factor(f, *a, za, c2, d);
            lemma_apply_factor(f, *b, zb, c2, d);
        },
        TypeV::Forall(a, b) => {
            let zb = apply_spec(f, *b, d)->Ok_0;
            lemma_apply_factor(f, *b, zb, c2, d);
        },
        _ => {},
    }
}

proof fn lemma_decl_below(c: Seq<CtxElemV>, i: int, n: nat)
    requires
        ctx_below(c, n),
        0 <= i < c.len(),
        decl(c[i]) is Some,
    ensures
        name_below(decl(c[i])->Some_0, n),
{
    assert(elem_below(c[i], n));
}

proof fn lemma_unique_solve(c: Seq<CtxElemV>, y: NameV, t: TypeV)
    requires
        decls_unique(c),
        c.contains(CtxElemV::Exists(y)),
    ensures
        decls_unique(solve(c, y, t)),
        solved_in(solve(c, y, t), y) == Some(t),
{
    let e = CtxElemV::Exists(y);
    lemma_first_index_exists(c, e);
    let k = first_index(c, e);
    let d = solve(c, y, t);
    assert(d.len() == c.len());
    assert forall|i: int| 0 <= i < d.len() implies decl(#[trigger] d[i]) == decl(c[i]) by {
        if i < k {
            assert(d[i] == c[i]);
        } else if i == k {
            assert(d[k] == CtxElemV::Solved(y, t));
        } else {
            assert(d[i] == c[i]);
        }
    }
    assert forall|i: int, j: int|
        0 <= i < d.len() && 0 <= j < d.len() && i != j && (#[trigger] decl(d[i])) is Some implies decl(d[i])
            != #[trigger] decl(d[j]) by {
        assert(decl(d[i]) == decl(c[i]));
        assert(decl(d[j]) == decl(c[j]));
    }
    assert(d[k] == CtxElemV::Solved(y, t));
    assert(d.contains(CtxElemV::Solved(y, t)));
    lemma_unique_solved(d, y, t);
}

/// The solution that articulating `y` writes.
pub open spec fn articulation(ex1: NameV, ex2: NameV, fun: bool) -> TypeV {
    if fun {
        TypeV::Fun(Box::new(exists_v(ex1)), Box::new(exists_v(ex2)))
    } else {
        TypeV::Tup(Box::new(exists_v(ex1)), Box::new(exists_v(ex2)))
    }
}

proof fn lemma_unique_articulate(c: Seq<CtxElemV>, y: NameV, n: nat, fun: bool)
    requires
        decls_unique(c),
        c.contains(CtxElemV::Exists(y)),
        ctx_below(c, n),
    ensures
        decls_unique(articulate(c, y, NameV::Index(n), NameV::Index(n + 1), fun)),
        articulate(c, y, NameV::Index(n), NameV::Index(n + 1), fun).contains(
            CtxElemV::Solved(y, articulation(NameV::Index(n), NameV::Index(n + 1), fun)),
        ),
{
    let ex1 = NameV::Index(n);
    let ex2 = NameV::Index(n + 1);
    let e = CtxElemV::Exists(y);
    lemma_first_index_exists(c, e);
    let k = first_index(c, e);
    let d = articulate(c, y, ex1, ex2, fun);
    let sol = CtxElemV::Solved(y, articulation(ex1, ex2, fun));
    assert(d.len() == c.len() + 2);
    assert(d[k] == CtxElemV::Exists(ex2));
    assert(d[k + 1] == CtxElemV::Exists(ex1));
    assert(d[k + 2] == sol);
    assert(d.contains(sol));
    assert forall|i: int| 0 <= i < d.len() && i != k && i != k + 1 implies decl(#[trigger] d[i]) == decl(
        c[if i < k {
            i
        } else if i == k + 2 {
            k
        } else {
            i - 2
        }],
    ) by {
        if i < k {
            assert(d[i] == c[i]);
        } else if i == k + 2 {
        } else {
            assert(d[i] == c[i - 2]);
        }
    }
    assert forall|i: int, j: int|
        0 <= i < d.len() && 0 <= j < d.len() && i != j && (#[trigger] decl(d[i])) is Some implies decl(d[i])
            != #[trigger] decl(d[j]) by {
        let oi = if i < k {
            i
        } else if i == k + 2 {
            k
        } else {
            i - 2
        };
        let oj = if j < k {
            j
        } else if j == k + 2 {
            k
        } else {
            j - 2
        };
        if i == k || i == k + 1 {
            if j != k && j != k + 1 && decl(d[j]) is Some {
                assert(decl(d[j]) == decl(c[oj]));
                lemma_decl_below(c, oj, n);
            }
        } else if j == k || j == k + 1 {
            assert(decl(d[i]) == decl(c[oi]));
            lemma_decl_below(c, oi, n);
        } else {
            assert(decl(d[i]) == decl(c[oi]));
            assert(decl(d[j]) == decl(c[oj]));
            assert(oi != oj);
        }
    }
}

/// Through `d`, `a` comes out as `b` does: wherever applying `d` to `a`
/// ends, applying it to `b` ends with the same type.
pub open spec fn agree(d: Seq<CtxElemV>, a: TypeV, b: TypeV) -> bool {
    forall|f: nat| #[trigger] apply_spec(f, a, d) is Ok ==> exists|g: nat| #[trigger] apply_spec(g, b, d)
        == apply_spec(f, a, d)
}

/// Through `d`, `a` and `b` are the same type.
pub open spec fn equal_through(d: Seq<CtxElemV>, a: TypeV, b: TypeV) -> bool {
    agree(d, a, b) && agree(d, b, a)
}

/// Through `d`, the existential `x` stands for `t`.
pub open spec fn solves_to(d: Seq<CtxElemV>, x: NameV, t: TypeV) -> bool {
    equal_through(d, exists_v(x), t)
}

proof fn lemma_agree_refl(d: Seq<CtxElemV>, a: TypeV)
    ensures
        agree(d, a, a),
{
    assert forall|f: nat| #[trigger] apply_spec(f, a, d) is Ok implies exists|g: nat| #[trigger] apply_spec(g, a, d)
        == apply_spec(f, a, d) by {
        assert(apply_spec(f, a, d) == apply_spec(f, a, d));
    }
}

proof fn lemma_agree_trans(d: Seq<CtxElemV>, a: TypeV, b: TypeV, c: TypeV)
    requires
        agree(d, a, b),
        agree(d, b, c),
    ensures
        agree(d, a, c),
{
    assert forall|f: nat| #[trigger] apply_spec(f, a, d) is Ok implies exists|g: nat| #[trigger] apply_spec(g, c, d)
        == apply_spec(f, a, d) by {
        let g1 = choose|g: nat| #[trigger] apply_spec(g, b, d) == apply_spec(f, a, d);
        assert(apply_spec(g1, b, d) is Ok);
        let g2 = choose|g: nat| #[trigger] apply_spec(g, c, d) == apply_spec(g1, b, d);
        assert(apply_spec(g2, c, d) == apply_spec(f, a, d));
    }
}

/// What agrees through `c2` agrees through every context that keeps the
/// solutions of `c2`.
proof fn lemma_agree_extend(c2: Seq<CtxElemV>, d: Seq<CtxElemV>, a: TypeV, b: TypeV)
    requires
        decls_unique(d),
        covers(c2, d),
        agree(c2, a, b),
    ensures
        agree(d, a, b),
{
    assert forall|f: nat| #[trigger] apply_spec(f, a, d) is Ok implies exists|g: nat| #[trigger] apply_spec(g, b, d)
        == apply_spec(f, a, d) by {
        let z = apply_spec(f, a, d)->Ok_0;
        lemma_apply_factor(f, a, z, c2, d);
        let y = apply_spec(f, a, c2)->Ok_0;
        let g1 = choose|g: nat| #[trigger] apply_spec(g, b, c2) == apply_spec(f, a, c2);
        lemma_apply_compose(g1, f, b, y, z, c2, d);
        assert(apply_spec(g1 + f, b, d) == apply_spec(f, a, d));
    }
}

/// A type and what applying a context to it gives are the same type through
/// that context.
proof fn lemma_agree_applied(fa: nat, a: TypeV, c: Seq<CtxElemV>)
    requires
        apply_spec(fa, a, c) is Ok,
    ensures
        equal_through(c, a, apply_spec(fa, a, c)->Ok_0),
{
    let a2 = apply_spec(fa, a, c)->Ok_0;
    lemma_apply_leaves_unsolved(fa, a, c);
    assert forall|f: nat| #[trigger] apply_spec(f, a, c) is Ok implies exists|g: nat| #[trigger] apply_spec(g, a2, c)
        == apply_spec(f, a, c) by {
        if fa <= f {
            lemma_apply_fuel(fa, f, a, c);
        } else {
            lemma_apply_fuel(f, fa, a, c);
        }
        lemma_apply_unsolved(0, a2, c);
        assert(apply_spec(0, a2, c) == apply_spec(f, a, c));
    }
    assert forall|f: nat| #[trigger] apply_spec(f, a2, c) is Ok implies exists|g: nat| #[trigger] apply_spec(g, a, c)
        == apply_spec(f, a2, c) by {
        lemma_apply_unsolved(f, a2, c);
        assert(apply_spec(fa, a, c) == apply_spec(f, a2, c));
    }
}

/// Types built the same way from parts that agree agree.
proof fn lemma_agree_pair(d: Seq<CtxElemV>, a1: TypeV, a2: TypeV, b1: TypeV, b2: TypeV, fun: bool)
    requires
        agree(d, a1, b1),
        agree(d, a2, b2),
    ensures
        agree(
            d,
            if fun {
                TypeV::Fun(Box::new(a1), Box::new(a2))
            } else {
                TypeV::Tup(Box::new(a1), Box::new(a2))
            },
            if fun {
                TypeV::Fun(Box::new(b1), Box::new(b2))
            } else {
                TypeV::Tup(Box::new(b1), Box::new(b2))
            },
        ),
{
    let a = if fun {
        TypeV::Fun(Box::new(a1), Box::new(a2))
    } else {
        TypeV::Tup(Box::new(a1), Box::new(a2))
    };
    let b = if fun {
        TypeV::Fun(Box::new(b1), Box::new(b2))
    } else {
        TypeV::Tup(Box::new(b1), Box::new(b2))
    };
    assert forall|f: nat| #[trigger] apply_spec(f, a, d) is Ok implies exists|g: nat| #[trigger] apply_spec(g, b, d)
        == apply_spec(f, a, d) by {
        assert(apply_spec(f, a1, d) is Ok);
        assert(apply_spec(f, a2, d) is Ok);
        let g1 = choose|g: nat| #[trigger] apply_spec(g, b1, d) == apply_spec(f, a1, d);
        let g2 = choose|g: nat| #[trigger] apply_spec(g, b2, d) == apply_spec(f, a2, d);
        let h: nat = if g1 <= g2 {
            g2
        } else {
            g1
        };
        lemma_apply_fuel(g1, h, b1, d);
        lemma_apply_fuel(g2, h, b2, d);
        assert(apply_spec(h, b, d) == apply_spec(f, a, d));
    }
}

proof fn lemma_contains_covered(c1: Seq<CtxElemV>, c2: Seq<CtxElemV>, e: CtxElemV)
    requires
        covers(c1, c2),
        c1.contains(e),
        !(e is Exists),
    ensures
        c2.contains(e),
{
    let j = choose|j: int| 0 <= j < c1.len() && c1[j] == e;
    assert(kept(c1[j], c2));
}

/// Solving `ex0` to a pair of fresh existentials that stand for the parts of
/// a type makes `ex0` stand for the type.
proof fn lemma_sound_pair(
    d: Seq<CtxElemV>,
    c2: Seq<CtxElemV>,
    ex0: NameV,
    ex1: NameV,
    ex2: NameV,
    ta: TypeV,
    tb: TypeV,
    t3: TypeV,
    fa: nat,
    fun: bool,
)
    requires
        decls_unique(d),
        covers(c2, d),
        solves_to(c2, ex1, ta),
        solves_to(d, ex2, t3),
        apply_spec(fa, tb, c2) == Ok::<TypeV, TypeError>(t3),
        d.contains(CtxElemV::Solved(ex0, articulation(ex1, ex2, fun))),
    ensures
        solves_to(
            d,
            ex0,
            if fun {
                TypeV::Fun(Box::new(ta), Box::new(tb))
            } else {
                TypeV::Tup(Box::new(ta), Box::new(tb))
            },
        ),
{
    let t = if fun {
        TypeV::Fun(Box::new(ta), Box::new(tb))
    } else {
        TypeV::Tup(Box::new(ta), Box::new(tb))
    };
    let sol = articulation(ex1, ex2, fun);
    lemma_unique_solved(d, ex0, sol);
    // the first part, carried from c2 to d
    lemma_agree_extend(c2, d, exists_v(ex1), ta);
    lemma_agree_extend(c2, d, ta, exists_v(ex1));
    // the second part: tb is t3 through c2, so through d
    lemma_agree_applied(fa, tb, c2);
    lemma_agree_extend(c2, d, tb, t3);
    lemma_agree_extend(c2, d, t3, tb);
    lemma_agree_trans(d, exists_v(ex2), t3, tb);
    lemma_agree_trans(d, tb, t3, exists_v(ex2));
    lemma_agree_pair(d, exists_v(ex1), exists_v(ex2), ta, tb, fun);
    lemma_agree_pair(d, ta, tb, exists_v(ex1), exists_v(ex2), fun);
    // ex0 is its solution through d
    assert(agree(d, exists_v(ex0), sol)) by {
        assert forall|f: nat| #[trigger] apply_spec(f, exists_v(ex0), d) is Ok implies exists|g: nat| #[trigger]
            apply_spec(g, sol, d) == apply_spec(f, exists_v(ex0), d) by {
            assert(apply_spec((f - 1) as nat, sol, d) == apply_spec(f, exists_v(ex0), d));
        }
    }
    assert(agree(d, sol, exists_v(ex0))) by {
        assert forall|f: nat| #[trigger] apply_spec(f, sol, d) is Ok implies exists|g: nat| #[trigger]
            apply_spec(g, exists_v(ex0), d) == apply_spec(f, sol, d) by {
            assert(apply_spec(f + 1, exists_v(ex0), d) == apply_spec(f, sol, d));
        }
    }
    lemma_agree_trans(d, exists_v(ex0), sol, t);
    lemma_agree_trans(d, t, sol, exists_v(ex0));
}

/// Soundness of left instantiation: instantiating an existential of a
/// context that declares each existential once, to a monotype, makes the
/// existential stand for that type in the context returned.
pub proof fn lemma_inst_l_sound(fuel: nat, n: nat, c: Seq<CtxElemV>, ex0: NameV, t: TypeV)
    requires
        is_mono(t),
        solutions_mono(c),
        ordered(c),
        decls_unique(c),
        ctx_below(c, n),
        name_below(ex0, n),
        type_below(t, n),
    ensures
        inst_l_spec(fuel, n, c, ex0, t) matches Ok((d, m)) ==> decls_unique(d) && solves_to(d, ex0, t),
    decreases fuel, 1nat,
{
    if fuel > 0 && c.contains(CtxElemV::Exists(ex0)) {
        if is_mono(t) && wf(ctx_before(c, CtxElemV::Exists(ex0)), t) {
            lemma_sound_solve(c, ex0, t);
        } else {
            let f = (fuel - 1) as nat;
            match t {
                TypeV::Fun(t1, t2) => {
                    if !(n + 2 > usize::MAX || c.len() + 2 > usize::MAX) {
                        let ex1 = NameV::Index(n);
                        let ex2 = NameV::Index(n + 1);
                        let m0 = n + 2;
                        let c1 = articulate(c, ex0, ex1, ex2, true);
                        crate::extension::lemma_articulate_keeps(c, ex0, ex1, ex2, true);
                        crate::extension::lemma_ordered_articulate(c, ex0, ex1, ex2, true);
                        lemma_unique_articulate(c, ex0, n, true);
                        lemma_articulate_below(c, ex0, ex1, ex2, true, n, m0);
                        lemma_type_below_mono(*t1, n, m0);
                        lemma_type_below_mono(*t2, n, m0);
                        lemma_inst_r_keeps(f, m0, c1, *t1, ex1);
                        lemma_inst_r_fresh(f, m0, c1, *t1, ex1);
                        lemma_inst_r_sound(f, m0, c1, *t1, ex1);
                        if let Ok((c2, n2)) = inst_r_spec(f, m0, c1, *t1, ex1) {
                            lemma_apply_mono(f, *t2, c2);
                            lemma_type_below_mono(*t2, m0, n2);
                            lemma_apply_below(f, *t2, c2, n2);
                            if let Ok(t3) = apply_spec(f, *t2, c2) {
                                lemma_inst_l_keeps(f, n2, c2, ex2, t3);
                                lemma_inst_l_sound(f, n2, c2, ex2, t3);
                                if let Ok((d, m)) = inst_l_spec(f, n2, c2, ex2, t3) {
                                    let sol = CtxElemV::Solved(ex0, articulation(ex1, ex2, true));
                                    lemma_contains_covered(c1, c2, sol);
                                    lemma_contains_covered(c2, d, sol);
                                    lemma_sound_pair(d, c2, ex0, ex1, ex2, *t1, *t2, t3, f, true);
                                }
                            }
                        }
                    }
                },
                TypeV::Exists(ex1) => {
                    if c.contains(CtxElemV::Exists(ex1)) {
                        lemma_sound_reach(c, ex0, ex1);
                    }
                },
                _ => {},
            }
        }
    }
}

/// Soundness of right instantiation: instantiating an existential of a
/// context that declares each existential once, to a monotype, makes the
/// existential stand for that type in the context returned.
pub proof fn lemma_inst_r_sound(fuel: nat, n: nat, c: Seq<CtxElemV>, t: TypeV, ex0: NameV)
    requires
        is_mono(t),
        solutions_mono(c),
        ordered(c),
        decls_unique(c),
        ctx_below(c, n),
        name_below(ex0, n),
        type_below(t, n),
    ensures
        inst_r_spec(fuel, n, c, t, ex0) matches Ok((d, m)) ==> decls_unique(d) && solves_to(d, ex0, t),
    decreases fuel, 1nat,
{
    if fuel > 0 && c.contains(CtxElemV::Exists(ex0)) {
        if is_mono(t) && wf(ctx_before(c, CtxElemV::Exists(ex0)), t) {
            lemma_sound_solve(c, ex0, t);
        } else {
            let f = (fuel - 1) as nat;
            match t {
                TypeV::Fun(t0, t1) => {
                    if !(n + 2 > usize::MAX || c.len() + 2 > usize::MAX) {
                        lemma_inst_r_sound_pair(f, n, c, ex0, *t0, *t1, true);
                    }
                },
                TypeV::Tup(t0, t1) => {
                    if !(n + 2 > usize::MAX || c.len() + 2 > usize::MAX) {
                        lemma_inst_r_sound_pair(f, n, c, ex0, *t0, *t1, false);
                    }
                },
                TypeV::Exists(ex1) => {
                    if c.contains(CtxElemV::Exists(ex1)) {
                        lemma_sound_reach(c, ex0, ex1);
                    }
                },
                _ => {},
            }
        }
    }
}

/// The articulating rules of right instantiation (a function or a pair).
proof fn lemma_inst_r_sound_pair(f: nat, n: nat, c: Seq<CtxElemV>, ex0: NameV, t0: TypeV, t1: TypeV, fun: bool)
    requires
        is_mono(t0),
        is_mono(t1),
        solutions_mono(c),
        ordered(c),
        decls_unique(c),
        ctx_below(c, n),
        name_below(ex0, n),
        type_below(t0, n),
        type_below(t1, n),
        c.contains(CtxElemV::Exists(ex0)),
        n + 2 <= usize::MAX,
    ensures
        (match inst_l_spec(f, n + 2, articulate(c, ex0, NameV::Index(n), NameV::Index(n + 1), fun), NameV::Index(n), t0) {
            Err(err) => Err(err),
            Ok((c2, n2)) => match apply_spec(f, t1, c2) {
                Err(err) => Err(err),
                Ok(t3) => inst_r_spec(f, n2, c2, t3, NameV::Index(n + 1)),
            },
        }) matches Ok((d, m)) ==> decls_unique(d) && solves_to(
            d,
            ex0,
            if fun {
                TypeV::Fun(Box::new(t0), Box::new(t1))
            } else {
                TypeV::Tup(Box::new(t0), Box::new(t1))
            },
        ),
    decreases f + 1, 0nat,
{
    let ex1 = NameV::Index(n);
    let ex2 = NameV::Index(n + 1);
    let m0 = n + 2;
    let c1 = articulate(c, ex0, ex1, ex2, fun);
    crate::extension::lemma_articulate_keeps(c, ex0, ex1, ex2, fun);
    crate::extension::lemma_ordered_articulate(c, ex0, ex1, ex2, fun);
    lemma_unique_articulate(c, ex0, n, fun);
    lemma_articulate_below(c, ex0, ex1, ex2, fun, n, m0);
    lemma_type_below_mono(t0, n, m0);
    lemma_type_below_mono(t1, n, m0);
    lemma_inst_l_keeps(f, m0, c1, ex1, t0);
    lemma_inst_l_fresh(f, m0, c1, ex1, t0);
    lemma_inst_l_sound(f, m0, c1, ex1, t0);
    if let Ok((c2, n2)) = inst_l_spec(f, m0, c1, ex1, t0) {
        lemma_apply_mono(f, t1, c2);
        lemma_type_below_mono(t1, m0, n2);
        lemma_apply_below(f, t1, c2, n2);
        if let Ok(t3) = apply_spec(f, t1, c2) {
            lemma_inst_r_keeps(f, n2, c2, t3, ex2);
            lemma_inst_r_sound(f, n2, c2, t3, ex2);
            if let Ok((d, m)) = inst_r_spec(f, n2, c2, t3, ex2) {
                let sol = CtxElemV::Solved(ex0, articulation(ex1, ex2, fun));
                lemma_contains_covered(c1, c2, sol);
                lemma_contains_covered(c2, d, sol);
                lemma_sound_pair(d, c2, ex0, ex1, ex2, t0, t1, t3, f, fun);
            }
        }
    }
}

/// InstLSolve and InstRSolve make the existential stand for the type.
proof fn lemma_sound_solve(c: Seq<CtxElemV>, ex0: NameV, t: TypeV)
    requires
        decls_unique(c),
        c.contains(CtxElemV::Exists(ex0)),
    ensures
        decls_unique(solve(c, ex0, t)),
        solves_to(solve(c, ex0, t), ex0, t),
{
    lemma_unique_solve(c, ex0, t);
    let d = solve(c, ex0, t);
    assert forall|f: nat| #[trigger] apply_spec(f, t, d) is Ok implies exists|g: nat| #[trigger] apply_spec(
        g,
        exists_v(ex0),
        d,
    ) == apply_spec(f, t, d) by {
        assert(apply_spec(f + 1, exists_v(ex0), d) == apply_spec(f, t, d));
    }
    assert forall|f: nat| #[trigger] apply_spec(f, exists_v(ex0), d) is Ok implies exists|g: nat| #[trigger]
        apply_spec(g, t, d) == apply_spec(f, exists_v(ex0), d) by {
        assert(apply_spec((f - 1) as nat, t, d) == apply_spec(f, exists_v(ex0), d));
    }
}

/// InstLReach and InstRReach, solving `ex1` to `ex0`, make `ex0` stand for
/// `ex1`.
proof fn lemma_sound_reach(c: Seq<CtxElemV>, ex0: NameV, ex1: NameV)
    requires
        decls_unique(c),
        c.contains(CtxElemV::Exists(ex1)),
    ensures
        decls_unique(solve(c, ex1, exists_v(ex0))),
        solves_to(solve(c, ex1, exists_v(ex0)), ex0, exists_v(ex1)),
{
    lemma_unique_solve(c, ex1, exists_v(ex0));
    let d = solve(c, ex1, exists_v(ex0));
    assert forall|f: nat| #[trigger] apply_spec(f, exists_v(ex1), d) is Ok implies exists|g: nat| #[trigger] apply_spec(
        g,
        exists_v(ex0),
        d,
    ) == apply_spec(f, exists_v(ex1), d) by {
        assert(f > 0);
        assert(apply_spec((f - 1) as nat, exists_v(ex0), d) == apply_spec(f, exists_v(ex1), d));
    }
    assert forall|f: nat| #[trigger] apply_spec(f, exists_v(ex0), d) is Ok implies exists|g: nat| #[trigger]
        apply_spec(g, exists_v(ex1), d) == apply_spec(f, exists_v(ex0), d) by {
        assert(apply_spec(f + 1, exists_v(ex1), d) == apply_spec(f, exists_v(ex0), d));
    }
}

/// Soundness of subtyping between monotypes: when one is a subtype of the
/// other in a context that declares each existential once, the two are the
/// same type through the context returned.
pub proof fn lemma_subtype_sound(fuel: nat, n: nat, c: Seq<CtxElemV>, t0: TypeV, t1: TypeV)
    requires
        is_mono(t0),
        is_mono(t1),
        solutions_mono(c),
        ordered(c),
        decls_unique(c),
        ctx_below(c, n),
        type_below(t0, n),
        type_below(t1, n),
    ensures
        subtype_spec(fuel, n, c, t0, t1) matches Ok((d, m)) ==> decls_unique(d) && equal_through(d, t0, t1),
    decreases fuel,
{
    lemma_agree_refl(c, t0);
    if fuel > 0 && wf(c, t0) && wf(c, t1) {
        let f = (fuel - 1) as nat;
        match (t0, t1) {
            (TypeV::Lit(a), TypeV::Lit(b)) => {},
            (TypeV::Var(a0), TypeV::Var(a1)) => {},
            (TypeV::Exists(ex0), TypeV::Exists(ex1)) if ex0 == ex1 => {},
            (TypeV::Fun(ta1, ta2), TypeV::Fun(tb1, tb2)) => {
                lemma_subtype_sound(f, n, c, *tb1, *ta1);
                lemma_subtype_keeps(f, n, c, *tb1, *ta1);
                lemma_subtype_fresh(f, n, c, *tb1, *ta1);
                if let Ok((c1, n1)) = subtype_spec(f, n, c, *tb1, *ta1) {
                    lemma_apply_mono(f, *ta2, c1);
                    lemma_apply_mono(f, *tb2, c1);
                    lemma_type_below_mono(*ta2, n, n1);
                    lemma_type_below_mono(*tb2, n, n1);
                    lemma_apply_below(f, *ta2, c1, n1);
                    lemma_apply_below(f, *tb2, c1, n1);
                    if let Ok(a2) = apply_spec(f, *ta2, c1) {
                        if let Ok(b2) = apply_spec(f, *tb2, c1) {
                            lemma_subtype_sound(f, n1, c1, a2, b2);
                            lemma_subtype_keeps(f, n1, c1, a2, b2);
                            if let Ok((d, m)) = subtype_spec(f, n1, c1, a2, b2) {
                                lemma_agree_extend(c1, d, *tb1, *ta1);
                                lemma_agree_extend(c1, d, *ta1, *tb1);
                                lemma_agree_applied(f, *ta2, c1);
                                lemma_agree_applied(f, *tb2, c1);
                                lemma_agree_extend(c1, d, *ta2, a2);
                                lemma_agree_extend(c1, d, a2, *ta2);
                                lemma_agree_extend(c1, d, *tb2, b2);
                                lemma_agree_extend(c1, d, b2, *tb2);
                                lemma_agree_trans(d, *ta2, a2, b2);
                                lemma_agree_trans(d, *ta2, b2, *tb2);
                                lemma_agree_trans(d, *tb2, b2, a2);
                                lemma_agree_trans(d, *tb2, a2, *ta2);
                                lemma_agree_pair(d, *ta1, *ta2, *tb1, *tb2, true);
                                lemma_agree_pair(d, *tb1, *tb2, *ta1, *ta2, true);
                            }
                        }
                    }
                }
            },
            (TypeV::Tup(ta1, ta2), TypeV::Tup(tb1, tb2)) => {
                lemma_subtype_sound(f, n, c, *ta1, *tb1);
                lemma_subtype_keeps(f, n, c, *ta1, *tb1);
                lemma_subtype_fresh(f, n, c, *ta1, *tb1);
                if let Ok((c1, n1)) = subtype_spec(f, n, c, *ta1, *tb1) {
                    lemma_type_below_mono(*ta2, n, n1);
                    lemma_type_below_mono(*tb2, n, n1);
                    lemma_subtype_sound(f, n1, c1, *ta2, *tb2);
                    lemma_subtype_keeps(f, n1, c1, *ta2, *tb2);
                    if let Ok((d, m)) = subtype_spec(f, n1, c1, *ta2, *tb2) {
                        lemma_agree_extend(c1, d, *tb1, *ta1);
                        lemma_agree_extend(c1, d, *ta1, *tb1);
                        lemma_agree_pair(d, *ta1, *ta2, *tb1, *tb2, false);
                        lemma_agree_pair(d, *tb1, *tb2, *ta1, *ta2, false);
                    }
                }
            },
            (_, TypeV::Forall(a, t2)) => {},
            (TypeV::Forall(a, t2), _) => {},
            (TypeV::Exists(ex0), _) => {
                if !occurs(ex0, t1) {
                    lemma_inst_l_sound(f, n, c, ex0, t1);
                }
            },
            (_, TypeV::Exists(ex0)) => {
                if !occurs(ex0, t0) {
                    lemma_inst_r_sound(f, n, c, t0, ex0);
                }
            },
            _ => {},
        }
    }
}

} // verus!
