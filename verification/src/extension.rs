//! Contexts that keep what types can mention. Subtyping and instantiation
//! between monotypes, and checking and synthesis of programs without
//! quantifiers, only solve existentials in place, add new ones and close the
//! scopes they open: the context they return keeps every type that was well
//! formed in their input context well formed, and synthesis gives a type
//! well formed in the context it returns.
use vstd::prelude::*;
use crate::syntax::{NameV, TypeV, Expr, is_mono, occurs};
use crate::context::{
    CtxElemV, ctx_insert, ctx_before, solved_in, annotation_in, wf, first_index, is_first_index,
    lemma_first_index_exists,
    lemma_first_index_unique,
};
use crate::algorithm::{
    TypeError, apply_spec, check_spec, synth_spec, app_synth_spec, subtype_spec, inst_l_spec, inst_r_spec,
    solve,
    articulate, exists_v,
};
use crate::laws::lemma_solved_in_contains;

verus! {

/// `e` is still available in `d` to the types that mention it: an entry
/// other than an unsolved existential is in `d`, and an unsolved existential
/// is in `d` unsolved or solved.
pub open spec fn kept(e: CtxElemV, d: Seq<CtxElemV>) -> bool {
    match e {
        CtxElemV::Exists(x) => d.contains(CtxElemV::Exists(x)) || solved_in(d, x) is Some,
        _ => d.contains(e),
    }
}

/// Every entry of `c` is kept in `d`.
pub open spec fn covers(c: Seq<CtxElemV>, d: Seq<CtxElemV>) -> bool {
    forall|i: int| 0 <= i < c.len() ==> #[trigger] kept(c[i], d)
}

/// Every entry of `c` that types can mention (all but the typed term
/// variables) is kept in `d`.
pub open spec fn covers_types(c: Seq<CtxElemV>, d: Seq<CtxElemV>) -> bool {
    forall|i: int| 0 <= i < c.len() && !(c[i] is TypedVar) ==> #[trigger] kept(c[i], d)
}

/// Every solution written in `c` is a monotype.
pub open spec fn solutions_mono(c: Seq<CtxElemV>) -> bool {
    forall|i: int| 0 <= i < c.len() && #[trigger] c[i] is Solved ==> is_mono(c[i]->Solved_1)
}

proof fn lemma_covers_refl(c: Seq<CtxElemV>)
    ensures
        covers(c, c),
{
    assert forall|i: int| 0 <= i < c.len() implies #[trigger] kept(c[i], c) by {
        assert(c.contains(c[i]));
    }
}

proof fn lemma_kept_trans(e: CtxElemV, d1: Seq<CtxElemV>, d2: Seq<CtxElemV>)
    requires
        kept(e, d1),
        covers(d1, d2),
    ensures
        kept(e, d2),
{
    match e {
        CtxElemV::Exists(x) => {
            if d1.contains(CtxElemV::Exists(x)) {
                let j = choose|j: int| 0 <= j < d1.len() && d1[j] == CtxElemV::Exists(x);
                assert(kept(d1[j], d2));
            } else {
                lemma_solved_in_contains(d1, x);
                let s = solved_in(d1, x)->Some_0;
                let j = choose|j: int| 0 <= j < d1.len() && d1[j] == CtxElemV::Solved(x, s);
                assert(kept(d1[j], d2));
                lemma_solved_in_contains(d2, x);
            }
        },
        _ => {
            let j = choose|j: int| 0 <= j < d1.len() && d1[j] == e;
            assert(kept(d1[j], d2));
        },
    }
}

proof fn lemma_covers_trans(c: Seq<CtxElemV>, d1: Seq<CtxElemV>, d2: Seq<CtxElemV>)
    requires
        covers(c, d1),
        covers(d1, d2),
    ensures
        covers(c, d2),
{
    assert forall|i: int| 0 <= i < c.len() implies #[trigger] kept(c[i], d2) by {
        lemma_kept_trans(c[i], d1, d2);
    }
}

/// A type well formed in `c` is well formed in every context that keeps the
/// entries of `c` that types can mention.
pub proof fn lemma_wf_covers(c: Seq<CtxElemV>, d: Seq<CtxElemV>, t: TypeV)
    requires
        covers_types(c, d),
        wf(c, t),
    ensures
        wf(d, t),
    decreases t,
{
    match t {
        TypeV::Var(x) => {
            let j = choose|j: int| 0 <= j < c.len() && c[j] == CtxElemV::Var(x);
            assert(kept(c[j], d));
        },
        TypeV::Exists(x) => {
            if c.contains(CtxElemV::Exists(x)) {
                let j = choose|j: int| 0 <= j < c.len() && c[j] == CtxElemV::Exists(x);
                assert(kept(c[j], d));
            } else {
                lemma_solved_in_contains(c, x);
                let s = solved_in(c, x)->Some_0;
                let j = choose|j: int| 0 <= j < c.len() && c[j] == CtxElemV::Solved(x, s);
                assert(kept(c[j], d));
                lemma_solved_in_contains(d, x);
            }
        },
        TypeV::Forall(a, b) => {
            let c1 = c.push(CtxElemV::Var(a));
            let d1 = d.push(CtxElemV::Var(a));
            assert forall|i: int| 0 <= i < c1.len() && !(c1[i] is TypedVar) implies #[trigger] kept(
                c1[i],
                d1,
            ) by {
                if i < c.len() {
                    assert(c1[i] == c[i]);
                    assert(kept(c[i], d));
                    lemma_kept_push(c[i], d, CtxElemV::Var(a));
                } else {
                    assert(d1[d.len() as int] == CtxElemV::Var(a));
                }
            }
            lemma_wf_covers(c1, d1, *b);
        },
        TypeV::Fun(a, b) => {
            lemma_wf_covers(c, d, *a);
            lemma_wf_covers(c, d, *b);
        },
        TypeV::Tup(a, b) => {
            lemma_wf_covers(c, d, *a);
            lemma_wf_covers(c, d, *b);
        },
        _ => {},
    }
}

proof fn lemma_kept_push(e: CtxElemV, d: Seq<CtxElemV>, x: CtxElemV)
    requires
        kept(e, d),
    ensures
        kept(e, d.push(x)),
{
    let d1 = d.push(x);
    match e {
        CtxElemV::Exists(y) => {
            if d.contains(CtxElemV::Exists(y)) {
                let j = choose|j: int| 0 <= j < d.len() && d[j] == CtxElemV::Exists(y);
                assert(d1[j] == d[j]);
                assert(d1.contains(CtxElemV::Exists(y)));
            } else {
                lemma_solved_in_contains(d, y);
                let s = solved_in(d, y)->Some_0;
                let j = choose|j: int| 0 <= j < d.len() && d[j] == CtxElemV::Solved(y, s);
                assert(d1[j] == d[j]);
                assert(d1.contains(CtxElemV::Solved(y, s)));
                lemma_solved_in_contains(d1, y);
            }
        },
        _ => {
            let j = choose|j: int| 0 <= j < d.len() && d[j] == e;
            assert(d1[j] == d[j]);
        },
    }
}

/// Replacing an unsolved existential by entries among which is a solution
/// for it keeps every entry.
proof fn lemma_covers_insert(c: Seq<CtxElemV>, ex: NameV, ins: Seq<CtxElemV>, s: TypeV)
    requires
        c.contains(CtxElemV::Exists(ex)),
        ins.contains(CtxElemV::Solved(ex, s)),
    ensures
        covers(c, ctx_insert(c, CtxElemV::Exists(ex), ins)),
{
    let e = CtxElemV::Exists(ex);
    lemma_first_index_exists(c, e);
    let k = first_index(c, e);
    let d = ctx_insert(c, e, ins);
    let j = choose|j: int| 0 <= j < ins.len() && ins[j] == CtxElemV::Solved(ex, s);
    assert(d[k + j] == CtxElemV::Solved(ex, s));
    assert(d.contains(CtxElemV::Solved(ex, s)));
    lemma_solved_in_contains(d, ex);
    assert forall|i: int| 0 <= i < c.len() implies #[trigger] kept(c[i], d) by {
        if i < k {
            assert(d[i] == c[i]);
            assert(d.contains(c[i]));
            if c[i] is Exists {
                assert(d.contains(CtxElemV::Exists(c[i]->Exists_0)));
            }
        } else if i > k {
            assert(d[i + ins.len() - 1] == c[i]);
            assert(d.contains(c[i]));
            if c[i] is Exists {
                assert(d.contains(CtxElemV::Exists(c[i]->Exists_0)));
            }
        }
    }
}

proof fn lemma_mono_insert(c: Seq<CtxElemV>, e: CtxElemV, ins: Seq<CtxElemV>)
    requires
        c.contains(e),
        solutions_mono(c),
        solutions_mono(ins),
    ensures
        solutions_mono(ctx_insert(c, e, ins)),
{
    lemma_first_index_exists(c, e);
    let k = first_index(c, e);
    let d = ctx_insert(c, e, ins);
    assert forall|i: int| 0 <= i < d.len() && #[trigger] d[i] is Solved implies is_mono(d[i]->Solved_1) by {
        if i < k {
            assert(d[i] == c[i]);
        } else if i < k + ins.len() {
            assert(d[i] == ins[i - k]);
        } else {
            assert(d[i] == c[i - ins.len() + 1]);
        }
    }
}

pub(crate) proof fn lemma_solve_keeps(c: Seq<CtxElemV>, ex: NameV, t: TypeV)
    requires
        c.contains(CtxElemV::Exists(ex)),
        solutions_mono(c),
        is_mono(t),
    ensures
        extends(c, solve(c, ex, t)),
        solutions_mono(solve(c, ex, t)),
{
    let ins = seq![CtxElemV::Solved(ex, t)];
    assert(ins[0] == CtxElemV::Solved(ex, t));
    assert(ins.contains(CtxElemV::Solved(ex, t)));
    lemma_extends_insert(c, ex, ins, t);
    assert(solutions_mono(ins));
    lemma_mono_insert(c, CtxElemV::Exists(ex), ins);
}

pub(crate) proof fn lemma_articulate_keeps(c: Seq<CtxElemV>, ex0: NameV, ex1: NameV, ex2: NameV, fun: bool)
    requires
        c.contains(CtxElemV::Exists(ex0)),
        solutions_mono(c),
    ensures
        extends(c, articulate(c, ex0, ex1, ex2, fun)),
        solutions_mono(articulate(c, ex0, ex1, ex2, fun)),
{
    let t = if fun {
        TypeV::Fun(Box::new(exists_v(ex1)), Box::new(exists_v(ex2)))
    } else {
        TypeV::Tup(Box::new(exists_v(ex1)), Box::new(exists_v(ex2)))
    };
    let ins = seq![CtxElemV::Exists(ex2), CtxElemV::Exists(ex1), CtxElemV::Solved(ex0, t)];
    assert(ins[2] == CtxElemV::Solved(ex0, t));
    assert(ins.contains(CtxElemV::Solved(ex0, t)));
    assert forall|j: int| 0 <= j < ins.len() implies !(#[trigger] ins[j] is TypedVar) by {
        if j == 0 {
        } else if j == 1 {
        } else {
        }
    }
    lemma_extends_insert(c, ex0, ins, t);
    assert(is_mono(t)) by {
        reveal_with_fuel(is_mono, 2);
    }
    assert forall|i: int| 0 <= i < ins.len() && #[trigger] ins[i] is Solved implies is_mono(ins[i]->Solved_1) by {
        if i == 2 {
        } else if i == 1 {
        } else {
        }
    }
    lemma_mono_insert(c, CtxElemV::Exists(ex0), ins);
}

/// The typed term variables of `c`, in order.
pub open spec fn typed_of(c: Seq<CtxElemV>) -> Seq<CtxElemV>
    decreases c.len(),
{
    if c.len() == 0 {
        Seq::empty()
    } else if c.last() is TypedVar {
        typed_of(c.drop_last()).push(c.last())
    } else {
        typed_of(c.drop_last())
    }
}

/// `c` gives the term variable `x` a type.
pub open spec fn annotated(c: Seq<CtxElemV>, x: NameV) -> bool {
    exists|i: int| 0 <= i < typed_of(c).len() && #[trigger] typed_of(c)[i]->TypedVar_0 == x
}

/// Every type that `c` gives a term variable is a monotype.
pub open spec fn typed_mono(c: Seq<CtxElemV>) -> bool {
    forall|i: int| 0 <= i < typed_of(c).len() ==> is_mono(#[trigger] typed_of(c)[i]->TypedVar_1)
}

/// `d` keeps every entry of `c`, in order as far as the scopes of term
/// variables go (what comes before a typed variable in `c` is kept before it
/// in `d`), and has the same typed term variables as `c`.
pub open spec fn extends(c: Seq<CtxElemV>, d: Seq<CtxElemV>) -> bool {
    &&& covers(c, d)
    &&& typed_of(d) == typed_of(c)
    &&& forall|i: int|
        0 <= i < c.len() && #[trigger] c[i] is TypedVar ==> covers(
            ctx_before(c, c[i]),
            ctx_before(d, c[i]),
        )
}

proof fn lemma_typed_of_concat(a: Seq<CtxElemV>, b: Seq<CtxElemV>)
    ensures
        typed_of(a + b) == typed_of(a) + typed_of(b),
    decreases b.len(),
{
    if b.len() == 0 {
        assert(a + b =~= a);
        assert(typed_of(a) + typed_of(b) =~= typed_of(a));
    } else {
        assert((a + b).drop_last() =~= a + b.drop_last());
        assert((a + b).last() == b.last());
        lemma_typed_of_concat(a, b.drop_last());
        if b.last() is TypedVar {
            assert(typed_of(a) + typed_of(b.drop_last()).push(b.last()) =~= (typed_of(a) + typed_of(
                b.drop_last(),
            )).push(b.last()));
        }
    }
}

proof fn lemma_typed_of_contains(c: Seq<CtxElemV>, e: CtxElemV)
    ensures
        typed_of(c).contains(e) == (e is TypedVar && c.contains(e)),
    decreases c.len(),
{
    if c.len() > 0 {
        let p = c.drop_last();
        lemma_typed_of_contains(p, e);
        assert(c =~= p.push(c.last()));
        if typed_of(c).contains(e) {
            let i = choose|i: int| 0 <= i < typed_of(c).len() && typed_of(c)[i] == e;
            if c.last() is TypedVar && i == typed_of(p).len() {
                assert(c[c.len() - 1] == e);
            } else {
                assert(typed_of(p)[i] == e);
                assert(typed_of(p).contains(e));
                let j = choose|j: int| 0 <= j < p.len() && p[j] == e;
                assert(c[j] == e);
            }
        }
        if e is TypedVar && c.contains(e) {
            let j = choose|j: int| 0 <= j < c.len() && c[j] == e;
            if j == c.len() - 1 {
                assert(typed_of(c)[typed_of(p).len() as int] == e);
            } else {
                assert(p[j] == e);
                assert(p.contains(e));
                let i = choose|i: int| 0 <= i < typed_of(p).len() && typed_of(p)[i] == e;
                assert(typed_of(c)[i] == e);
            }
        }
    }
}

proof fn lemma_typed_of_push(c: Seq<CtxElemV>, e: CtxElemV)
    ensures
        typed_of(c.push(e)) == (if e is TypedVar {
            typed_of(c).push(e)
        } else {
            typed_of(c)
        }),
{
    assert(c.push(e).drop_last() =~= c);
}

/// A typed term variable that `c` does not annotate is not an entry of `c`.
proof fn lemma_not_annotated(c: Seq<CtxElemV>, x: NameV, t: TypeV)
    requires
        !annotated(c, x),
    ensures
        !c.contains(CtxElemV::TypedVar(x, t)),
{
    lemma_typed_of_contains(c, CtxElemV::TypedVar(x, t));
    if c.contains(CtxElemV::TypedVar(x, t)) {
        let i = choose|i: int| 0 <= i < typed_of(c).len() && typed_of(c)[i] == CtxElemV::TypedVar(x, t);
        assert(typed_of(c)[i]->TypedVar_0 == x);
    }
}

proof fn lemma_split_unique(a: Seq<CtxElemV>, b: Seq<CtxElemV>, c: Seq<CtxElemV>, s: CtxElemV)
    requires
        a.push(s) + b == c.push(s),
        !a.contains(s),
        !c.contains(s),
    ensures
        a == c,
        b.len() == 0,
{
    let l = a.push(s) + b;
    if a.len() < c.len() {
        assert(l[a.len() as int] == s);
        assert(c.push(s)[a.len() as int] == c[a.len() as int]);
        assert(c.contains(s));
    }
    if a.len() > c.len() {
        assert(c.push(s)[c.len() as int] == s);
        assert(l[c.len() as int] == a[c.len() as int]);
        assert(a.contains(s));
    }
    assert forall|i: int| 0 <= i < a.len() implies a[i] == c[i] by {
        assert(l[i] == a[i]);
        assert(c.push(s)[i] == c[i]);
    }
    assert(a =~= c);
}

proof fn lemma_kept_prefix(e: CtxElemV, p: Seq<CtxElemV>, r: Seq<CtxElemV>)
    requires
        kept(e, p),
        p.len() <= r.len(),
        r.take(p.len() as int) == p,
    ensures
        kept(e, r),
{
    match e {
        CtxElemV::Exists(y) => {
            if p.contains(CtxElemV::Exists(y)) {
                let j = choose|j: int| 0 <= j < p.len() && p[j] == CtxElemV::Exists(y);
                assert(r[j] == p[j]);
                assert(r.contains(CtxElemV::Exists(y)));
            } else {
                lemma_solved_in_contains(p, y);
                let s = solved_in(p, y)->Some_0;
                let j = choose|j: int| 0 <= j < p.len() && p[j] == CtxElemV::Solved(y, s);
                assert(r[j] == p[j]);
                assert(r.contains(CtxElemV::Solved(y, s)));
                lemma_solved_in_contains(r, y);
            }
        },
        _ => {
            let j = choose|j: int| 0 <= j < p.len() && p[j] == e;
            assert(r[j] == p[j]);
        },
    }
}

/// The first occurrence of `x` in a prefix of `d` that `r` shares is the
/// first occurrence in both.
proof fn lemma_first_index_shared(d: Seq<CtxElemV>, r: Seq<CtxElemV>, q: int, x: CtxElemV)
    requires
        0 <= q <= d.len(),
        q <= r.len(),
        r.take(q) == d.take(q),
        d.take(q).contains(x),
    ensures
        first_index(d, x) < q,
        first_index(r, x) == first_index(d, x),
        ctx_before(r, x) == ctx_before(d, x),
{
    let p = d.take(q);
    lemma_first_index_exists(p, x);
    let i = first_index(p, x);
    assert(is_first_index(d, x, i)) by {
        assert(d[i] == p[i]);
        assert forall|j: int| 0 <= j < i implies d[j] != x by {
            assert(p[j] == d[j]);
        }
    }
    assert(is_first_index(r, x, i)) by {
        assert(r[i] == r.take(q)[i]);
        assert forall|j: int| 0 <= j < i implies r[j] != x by {
            assert(r[j] == r.take(q)[j]);
            assert(p[j] == d[j]);
        }
    }
    lemma_first_index_unique(d, x, i);
    lemma_first_index_unique(r, x, i);
    assert(r.take(i) =~= d.take(i)) by {
        assert forall|j: int| 0 <= j < i implies r.take(i)[j] == d.take(i)[j] by {
            assert(r[j] == r.take(q)[j]);
            assert(d[j] == d.take(q)[j]);
        }
    }
}

proof fn lemma_extends_refl(c: Seq<CtxElemV>)
    ensures
        extends(c, c),
{
    lemma_covers_refl(c);
    assert forall|i: int| 0 <= i < c.len() && #[trigger] c[i] is TypedVar implies covers(
        ctx_before(c, c[i]),
        ctx_before(c, c[i]),
    ) by {
        lemma_covers_refl(ctx_before(c, c[i]));
    }
}

proof fn lemma_extends_trans(c: Seq<CtxElemV>, d1: Seq<CtxElemV>, d2: Seq<CtxElemV>)
    requires
        extends(c, d1),
        extends(d1, d2),
    ensures
        extends(c, d2),
{
    lemma_covers_trans(c, d1, d2);
    assert forall|i: int| 0 <= i < c.len() && #[trigger] c[i] is TypedVar implies covers(
        ctx_before(c, c[i]),
        ctx_before(d2, c[i]),
    ) by {
        let s = c[i];
        assert(kept(c[i], d1));
        let j = choose|j: int| 0 <= j < d1.len() && d1[j] == s;
        assert(d1[j] is TypedVar);
        lemma_covers_trans(ctx_before(c, s), ctx_before(d1, s), ctx_before(d2, s));
    }
}

proof fn lemma_extends_push(c: Seq<CtxElemV>, e: CtxElemV)
    requires
        !(e is TypedVar),
    ensures
        extends(c, c.push(e)),
{
    let d = c.push(e);
    lemma_typed_of_push(c, e);
    assert forall|i: int| 0 <= i < c.len() implies #[trigger] kept(c[i], d) by {
        lemma_covers_refl(c);
        assert(d.take(c.len() as int) =~= c);
        lemma_kept_prefix(c[i], c, d);
    }
    assert forall|i: int| 0 <= i < c.len() && #[trigger] c[i] is TypedVar implies covers(
        ctx_before(c, c[i]),
        ctx_before(d, c[i]),
    ) by {
        assert(c.take(c.len() as int) =~= c);
        assert(c.contains(c[i]));
        assert(d.take(c.len() as int) =~= c.take(c.len() as int));
        lemma_first_index_shared(c, d, c.len() as int, c[i]);
        lemma_covers_refl(ctx_before(c, c[i]));
    }
}

/// Replacing an unsolved existential by entries, none of them a typed term
/// variable, among which is a solution for it, extends the context.
proof fn lemma_extends_insert(c: Seq<CtxElemV>, ex: NameV, ins: Seq<CtxElemV>, s: TypeV)
    requires
        c.contains(CtxElemV::Exists(ex)),
        ins.contains(CtxElemV::Solved(ex, s)),
        forall|j: int| 0 <= j < ins.len() ==> !(#[trigger] ins[j] is TypedVar),
    ensures
        extends(c, ctx_insert(c, CtxElemV::Exists(ex), ins)),
{
    let e = CtxElemV::Exists(ex);
    lemma_first_index_exists(c, e);
    let k = first_index(c, e);
    let d = ctx_insert(c, e, ins);
    lemma_covers_insert(c, ex, ins, s);
    // typed variables
    assert(c =~= c.take(k) + seq![e] + c.skip(k + 1));
    lemma_typed_of_concat(c.take(k) + seq![e], c.skip(k + 1));
    lemma_typed_of_concat(c.take(k), seq![e]);
    lemma_typed_of_concat(c.take(k) + ins, c.skip(k + 1));
    lemma_typed_of_concat(c.take(k), ins);
    assert(typed_of(seq![e]) =~= Seq::<CtxElemV>::empty()) by {
        assert(seq![e].drop_last() =~= Seq::<CtxElemV>::empty());
        assert(seq![e].last() == e);
        assert(typed_of(Seq::<CtxElemV>::empty()) =~= Seq::<CtxElemV>::empty());
    }
    assert(typed_of(ins) =~= Seq::<CtxElemV>::empty()) by {
        if typed_of(ins).len() > 0 {
            lemma_typed_of_contains(ins, typed_of(ins)[0]);
            assert(typed_of(ins).contains(typed_of(ins)[0]));
            let j = choose|j: int| 0 <= j < ins.len() && ins[j] == typed_of(ins)[0];
            assert(!(ins[j] is TypedVar));
        }
    }
    assert(typed_of(d) == typed_of(c));
    // scopes
    assert forall|i: int| 0 <= i < c.len() && #[trigger] c[i] is TypedVar implies covers(
        ctx_before(c, c[i]),
        ctx_before(d, c[i]),
    ) by {
        let x = c[i];
        lemma_first_index_exists(c, x);
        let p = first_index(c, x);
        assert(p != k);
        if p < k {
            assert(c.take(p + 1).contains(x)) by {
                assert(c.take(p + 1)[p] == x);
            }
            assert(d.take(p + 1) =~= c.take(p + 1));
            lemma_first_index_shared(c, d, p + 1, x);
            lemma_covers_refl(ctx_before(c, x));
        } else {
            let q = p + ins.len() - 1;
            assert(d[q] == x);
            assert forall|j: int| 0 <= j < q implies d[j] != x by {
                if j < k {
                    assert(d[j] == c[j]);
                } else if j < k + ins.len() {
                    assert(d[j] == ins[j - k]);
                } else {
                    assert(d[j] == c[j - ins.len() + 1]);
                }
            }
            assert(is_first_index(d, x, q));
            lemma_first_index_unique(d, x, q);
            let cb = c.take(p);
            let db = d.take(q);
            assert forall|j: int| 0 <= j < cb.len() implies #[trigger] kept(cb[j], db) by {
                if j < k {
                    assert(db[j] == c[j]);
                    assert(db.contains(c[j]));
                    if c[j] is Exists {
                        assert(db.contains(CtxElemV::Exists(c[j]->Exists_0)));
                    }
                } else if j == k {
                    let jj = choose|jj: int| 0 <= jj < ins.len() && ins[jj] == CtxElemV::Solved(ex, s);
                    assert(db[k + jj] == CtxElemV::Solved(ex, s));
                    assert(db.contains(CtxElemV::Solved(ex, s)));
                    lemma_solved_in_contains(db, ex);
                } else {
                    assert(db[j + ins.len() - 1] == c[j]);
                    assert(db.contains(c[j]));
                    if c[j] is Exists {
                        assert(db.contains(CtxElemV::Exists(c[j]->Exists_0)));
                    }
                }
            }
        }
    }
}

/// Closing the scope of a typed term variable that was not in `c`, by
/// dropping from it, extends `c`.
proof fn lemma_extends_cut(c: Seq<CtxElemV>, s: CtxElemV, d: Seq<CtxElemV>)
    requires
        s is TypedVar,
        !c.contains(s),
        extends(c.push(s), d),
    ensures
        d.contains(s),
        extends(c, ctx_before(d, s)),
        extends(c, ctx_insert(d, s, Seq::empty())),
{
    let c1 = c.push(s);
    assert(c1[c.len() as int] == s);
    assert(kept(c1[c.len() as int], d));
    lemma_first_index_exists(d, s);
    let q = first_index(d, s);
    assert(forall|j: int| 0 <= j < c.len() ==> c1[j] != s) by {
        assert forall|j: int| 0 <= j < c.len() implies c1[j] != s by {
            assert(c1[j] == c[j]);
        }
    }
    assert(is_first_index(c1, s, c.len() as int));
    lemma_first_index_unique(c1, s, c.len() as int);
    assert(c1.take(c.len() as int) =~= c);
    let out = ctx_before(d, s);
    assert(covers(c, out));
    let r = ctx_insert(d, s, Seq::empty());
    assert(r =~= d.take(q) + d.skip(q + 1));
    assert(r.take(q) =~= out);
    // typed variables
    assert(d =~= d.take(q).push(s) + d.skip(q + 1));
    lemma_typed_of_concat(d.take(q).push(s), d.skip(q + 1));
    lemma_typed_of_push(d.take(q), s);
    lemma_typed_of_push(c, s);
    lemma_typed_of_contains(d.take(q), s);
    lemma_typed_of_contains(c, s);
    assert(!d.take(q).contains(s)) by {
        if d.take(q).contains(s) {
            let j = choose|j: int| 0 <= j < q && d.take(q)[j] == s;
            assert(d[j] == s);
        }
    }
    lemma_split_unique(typed_of(d.take(q)), typed_of(d.skip(q + 1)), typed_of(c), s);
    lemma_typed_of_concat(d.take(q), d.skip(q + 1));
    assert(typed_of(out) == typed_of(c));
    assert(typed_of(r) =~= typed_of(c));
    // what r keeps
    assert forall|i: int| 0 <= i < c.len() implies #[trigger] kept(c[i], r) by {
        lemma_kept_prefix(c[i], out, r);
    }
    // scopes
    assert forall|i: int| 0 <= i < c.len() && #[trigger] c[i] is TypedVar implies covers(
        ctx_before(c, c[i]),
        ctx_before(out, c[i]),
    ) && covers(ctx_before(c, c[i]), ctx_before(r, c[i])) by {
        let x = c[i];
        assert(c1[i] == x);
        assert(c.contains(x));
        lemma_first_index_exists(c, x);
        assert(c1.take(c.len() as int) =~= c.take(c.len() as int));
        lemma_first_index_shared(c, c1, c.len() as int, x);
        assert(covers(ctx_before(c1, x), ctx_before(d, x)));
        assert(kept(c[i], out));
        assert(out.contains(x));
        assert(d.take(q) =~= out);
        assert(out.take(q) =~= d.take(q));
        lemma_first_index_shared(d, out, q, x);
        lemma_first_index_shared(d, r, q, x);
    }
}

/// Applying a context whose solutions are monotypes to a monotype gives a
/// monotype.
pub proof fn lemma_apply_mono(fuel: nat, t: TypeV, c: Seq<CtxElemV>)
    requires
        is_mono(t),
        solutions_mono(c),
    ensures
        apply_spec(fuel, t, c) matches Ok(r) ==> is_mono(r),
    decreases fuel, t,
{
    match t {
        TypeV::Exists(ex) => {
            if let Some(t1) = solved_in(c, ex) {
                lemma_solved_in_contains(c, ex);
                let j = choose|j: int| 0 <= j < c.len() && c[j] == CtxElemV::Solved(ex, t1);
                assert(c[j] is Solved);
                if fuel > 0 {
                    lemma_apply_mono((fuel - 1) as nat, t1, c);
                }
            }
        },
        TypeV::Fun(a, b) => {
            lemma_apply_mono(fuel, *a, c);
            lemma_apply_mono(fuel, *b, c);
        },
        TypeV::Tup(a, b) => {
            lemma_apply_mono(fuel, *a, c);
            lemma_apply_mono(fuel, *b, c);
        },
        _ => {},
    }
}

/// Subtyping between monotypes, in a context whose solutions are monotypes,
/// returns a context that extends its input and whose solutions are
/// monotypes.
pub proof fn lemma_subtype_keeps(fuel: nat, n: nat, c: Seq<CtxElemV>, t0: TypeV, t1: TypeV)
    requires
        is_mono(t0),
        is_mono(t1),
        solutions_mono(c),
        ordered(c),
    ensures
        subtype_spec(fuel, n, c, t0, t1) matches Ok((d, m)) ==> extends(c, d) && solutions_mono(d)
            && ordered(d),
    decreases fuel,
{
    lemma_extends_refl(c);
    if fuel > 0 && wf(c, t0) && wf(c, t1) {
        let f = (fuel - 1) as nat;
        match (t0, t1) {
            (TypeV::Lit(a), TypeV::Lit(b)) => {},
            (TypeV::Var(a0), TypeV::Var(a1)) => {},
            (TypeV::Exists(ex0), TypeV::Exists(ex1)) if ex0 == ex1 => {},
            (TypeV::Fun(ta1, ta2), TypeV::Fun(tb1, tb2)) => {
                lemma_subtype_keeps(f, n, c, *tb1, *ta1);
                if let Ok((c1, n1)) = subtype_spec(f, n, c, *tb1, *ta1) {
                    lemma_apply_mono(f, *ta2, c1);
                    lemma_apply_mono(f, *tb2, c1);
                    if let Ok(a2) = apply_spec(f, *ta2, c1) {
                        if let Ok(b2) = apply_spec(f, *tb2, c1) {
                            lemma_subtype_keeps(f, n1, c1, a2, b2);
                            if let Ok((d, m)) = subtype_spec(f, n1, c1, a2, b2) {
                                lemma_extends_trans(c, c1, d);
                            }
                        }
                    }
                }
            },
            (TypeV::Tup(ta1, ta2), TypeV::Tup(tb1, tb2)) => {
                lemma_subtype_keeps(f, n, c, *ta1, *tb1);
                if let Ok((c1, n1)) = subtype_spec(f, n, c, *ta1, *tb1) {
                    lemma_subtype_keeps(f, n1, c1, *ta2, *tb2);
                    if let Ok((d, m)) = subtype_spec(f, n1, c1, *ta2, *tb2) {
                        lemma_extends_trans(c, c1, d);
                    }
                }
            },
            (_, TypeV::Forall(a, t2)) => {},
            (TypeV::Forall(a, t2), _) => {},
            (TypeV::Exists(ex0), _) => {
                if !occurs(ex0, t1) {
                    lemma_inst_l_keeps(f, n, c, ex0, t1);
                }
            },
            (_, TypeV::Exists(ex0)) => {
                if !occurs(ex0, t0) {
                    lemma_inst_r_keeps(f, n, c, t0, ex0);
                }
            },
            _ => {},
        }
    }
}

/// Left instantiation to a monotype extends its input context and writes only
/// monotype solutions.
pub proof fn lemma_inst_l_keeps(fuel: nat, n: nat, c: Seq<CtxElemV>, ex0: NameV, t: TypeV)
    requires
        is_mono(t),
        solutions_mono(c),
        ordered(c),
    ensures
        inst_l_spec(fuel, n, c, ex0, t) matches Ok((d, m)) ==> extends(c, d) && solutions_mono(d)
            && ordered(d),
    decreases fuel,
{
    if fuel > 0 && c.contains(CtxElemV::Exists(ex0)) {
        if is_mono(t) && wf(ctx_before(c, CtxElemV::Exists(ex0)), t) {
            lemma_solve_keeps(c, ex0, t);
            lemma_ordered_solve(c, ex0, t);
        } else {
            let f = (fuel - 1) as nat;
            match t {
                TypeV::Fun(t1, t2) => {
                    if !(n + 2 > usize::MAX || c.len() + 2 > usize::MAX) {
                        let ex1 = NameV::Index(n);
                        let ex2 = NameV::Index(n + 1);
                        let c1 = articulate(c, ex0, ex1, ex2, true);
                        lemma_articulate_keeps(c, ex0, ex1, ex2, true);
                        lemma_ordered_articulate(c, ex0, ex1, ex2, true);
                        lemma_inst_r_keeps(f, n + 2, c1, *t1, ex1);
                        if let Ok((c2, n2)) = inst_r_spec(f, n + 2, c1, *t1, ex1) {
                            lemma_extends_trans(c, c1, c2);
                            lemma_apply_mono(f, *t2, c2);
                            if let Ok(t3) = apply_spec(f, *t2, c2) {
                                lemma_inst_l_keeps(f, n2, c2, ex2, t3);
                                if let Ok((d, m)) = inst_l_spec(f, n2, c2, ex2, t3) {
                                    lemma_extends_trans(c, c2, d);
                                }
                            }
                        }
                    }
                },
                TypeV::Exists(ex1) => {
                    if c.contains(CtxElemV::Exists(ex1)) {
                        lemma_solve_keeps(c, ex1, exists_v(ex0));
                        lemma_ordered_reach(c, ex0, ex1);
                    }
                },
                _ => {},
            }
        }
    }
}

/// Right instantiation to a monotype extends its input context and writes
/// only monotype solutions.
pub proof fn lemma_inst_r_keeps(fuel: nat, n: nat, c: Seq<CtxElemV>, t: TypeV, ex0: NameV)
    requires
        is_mono(t),
        solutions_mono(c),
        ordered(c),
    ensures
        inst_r_spec(fuel, n, c, t, ex0) matches Ok((d, m)) ==> extends(c, d) && solutions_mono(d)
            && ordered(d),
    decreases fuel,
{
    if fuel > 0 && c.contains(CtxElemV::Exists(ex0)) {
        if is_mono(t) && wf(ctx_before(c, CtxElemV::Exists(ex0)), t) {
            lemma_solve_keeps(c, ex0, t);
            lemma_ordered_solve(c, ex0, t);
        } else {
            let f = (fuel - 1) as nat;
            match t {
                TypeV::Fun(t0, t1) => {
                    if !(n + 2 > usize::MAX || c.len() + 2 > usize::MAX) {
                        let ex1 = NameV::Index(n);
                        let ex2 = NameV::Index(n + 1);
                        let c1 = articulate(c, ex0, ex1, ex2, true);
                        lemma_articulate_keeps(c, ex0, ex1, ex2, true);
                        lemma_ordered_articulate(c, ex0, ex1, ex2, true);
                        lemma_inst_l_keeps(f, n + 2, c1, ex1, *t0);
                        if let Ok((c2, n2)) = inst_l_spec(f, n + 2, c1, ex1, *t0) {
                            lemma_extends_trans(c, c1, c2);
                            lemma_apply_mono(f, *t1, c2);
                            if let Ok(t3) = apply_spec(f, *t1, c2) {
                                lemma_inst_r_keeps(f, n2, c2, t3, ex2);
                                if let Ok((d, m)) = inst_r_spec(f, n2, c2, t3, ex2) {
                                    lemma_extends_trans(c, c2, d);
                                }
                            }
                        }
                    }
                },
                TypeV::Tup(t0, t1) => {
                    if !(n + 2 > usize::MAX || c.len() + 2 > usize::MAX) {
                        let ex1 = NameV::Index(n);
                        let ex2 = NameV::Index(n + 1);
                        let c1 = articulate(c, ex0, ex1, ex2, false);
                        lemma_articulate_keeps(c, ex0, ex1, ex2, false);
                        lemma_ordered_articulate(c, ex0, ex1, ex2, false);
                        lemma_inst_l_keeps(f, n + 2, c1, ex1, *t0);
                        if let Ok((c2, n2)) = inst_l_spec(f, n + 2, c1, ex1, *t0) {
                            lemma_extends_trans(c, c1, c2);
                            lemma_apply_mono(f, *t1, c2);
                            if let Ok(t3) = apply_spec(f, *t1, c2) {
                                lemma_inst_r_keeps(f, n2, c2, t3, ex2);
                                if let Ok((d, m)) = inst_r_spec(f, n2, c2, t3, ex2) {
                                    lemma_extends_trans(c, c2, d);
                                }
                            }
                        }
                    }
                },
                TypeV::Exists(ex1) => {
                    if c.contains(CtxElemV::Exists(ex1)) {
                        lemma_solve_keeps(c, ex1, exists_v(ex0));
                        lemma_ordered_reach(c, ex0, ex1);
                    }
                },
                _ => {},
            }
        }
    }
}

/// Subtyping between monotypes, in a context whose solutions are monotypes,
/// keeps every type that is well formed in its input context well formed in
/// the context it returns.
pub proof fn lemma_subtype_keeps_wf(
    fuel: nat,
    n: nat,
    c: Seq<CtxElemV>,
    t0: TypeV,
    t1: TypeV,
    t: TypeV,
)
    requires
        is_mono(t0),
        is_mono(t1),
        solutions_mono(c),
        ordered(c),
        wf(c, t),
    ensures
        subtype_spec(fuel, n, c, t0, t1) matches Ok((d, m)) ==> wf(d, t),
{
    lemma_subtype_keeps(fuel, n, c, t0, t1);
    if let Ok((d, m)) = subtype_spec(fuel, n, c, t0, t1) {
        lemma_wf_covers(c, d, t);
    }
}

/// The type of every typed term variable of `c` is well formed in what comes
/// before it, and every solution in what comes up to and including it.
pub open spec fn ordered(c: Seq<CtxElemV>) -> bool {
    forall|i: int| 0 <= i < c.len() ==> #[trigger] entry_ordered(c, i)
}

pub open spec fn entry_ordered(c: Seq<CtxElemV>, i: int) -> bool {
    match c[i] {
        CtxElemV::TypedVar(_, t) => wf(c.take(i), t),
        CtxElemV::Solved(_, s) => wf(c.take(i + 1), s),
        _ => true,
    }
}

/// What a type is well formed in, a longer context that starts with it
/// keeps it well formed in.
proof fn lemma_wf_prefix(c: Seq<CtxElemV>, k: int, t: TypeV)
    requires
        0 <= k <= c.len(),
        wf(c.take(k), t),
    ensures
        wf(c, t),
{
    let p = c.take(k);
    lemma_covers_refl(p);
    assert(c.take(p.len() as int) == p);
    assert forall|i: int| 0 <= i < p.len() && !(p[i] is TypedVar) implies #[trigger] kept(p[i], c) by {
        lemma_kept_prefix(p[i], p, c);
    }
    lemma_wf_covers(p, c, t);
}

proof fn lemma_ordered_push(c: Seq<CtxElemV>, e: CtxElemV)
    requires
        ordered(c),
        e is TypedVar ==> wf(c, e->TypedVar_1),
        !(e is Solved),
    ensures
        ordered(c.push(e)),
{
    let d = c.push(e);
    assert forall|i: int| 0 <= i < d.len() implies #[trigger] entry_ordered(d, i) by {
        if i < c.len() {
            assert(entry_ordered(c, i));
            assert(d.take(i) =~= c.take(i));
            assert(d.take(i + 1) =~= c.take(i + 1));
            assert(d[i] == c[i]);
        } else {
            assert(d.take(i) =~= c);
        }
    }
}

proof fn lemma_ordered_prefix(c: Seq<CtxElemV>, q: int)
    requires
        ordered(c),
        0 <= q <= c.len(),
    ensures
        ordered(c.take(q)),
{
    let d = c.take(q);
    assert forall|i: int| 0 <= i < d.len() implies #[trigger] entry_ordered(d, i) by {
        assert(entry_ordered(c, i));
        assert(d.take(i) =~= c.take(i));
        assert(d.take(i + 1) =~= c.take(i + 1));
    }
}

/// Removing a typed term variable keeps the context ordered and keeps every
/// entry that types can mention.
proof fn lemma_ordered_remove(d: Seq<CtxElemV>, q: int)
    requires
        ordered(d),
        0 <= q < d.len(),
        d[q] is TypedVar,
    ensures
        ordered(d.take(q) + d.skip(q + 1)),
        covers_types(d, d.take(q) + d.skip(q + 1)),
{
    let r = d.take(q) + d.skip(q + 1);
    assert forall|i: int| 0 <= i < d.len() && !(d[i] is TypedVar) implies #[trigger] kept(d[i], r) by {
        if i < q {
            assert(r[i] == d[i]);
            assert(r.contains(d[i]));
            if d[i] is Exists {
                assert(r.contains(CtxElemV::Exists(d[i]->Exists_0)));
            }
        } else {
            assert(i != q);
            assert(r[i - 1] == d[i]);
            assert(r.contains(d[i]));
            if d[i] is Exists {
                assert(r.contains(CtxElemV::Exists(d[i]->Exists_0)));
            }
        }
    }
    assert forall|i: int| 0 <= i < r.len() implies #[trigger] entry_ordered(r, i) by {
        if i < q {
            assert(entry_ordered(d, i));
            assert(r.take(i) =~= d.take(i));
            assert(r.take(i + 1) =~= d.take(i + 1));
            assert(r[i] == d[i]);
        } else {
            let j = i + 1;
            assert(entry_ordered(d, j));
            assert(r[i] == d[j]);
            // the part before the entry lost only the typed variable at q
            let pd = d.take(j);
            let pr = r.take(i);
            let pd1 = d.take(j + 1);
            let pr1 = r.take(i + 1);
            assert(pr =~= pd.take(q) + pd.skip(q + 1));
            assert(pr1 =~= pd1.take(q) + pd1.skip(q + 1));
            lemma_ordered_remove_types(pd, q);
            lemma_ordered_remove_types(pd1, q);
            match d[j] {
                CtxElemV::TypedVar(_, t) => {
                    lemma_wf_covers(pd, pr, t);
                },
                CtxElemV::Solved(_, t) => {
                    lemma_wf_covers(pd1, pr1, t);
                },
                _ => {},
            }
        }
    }
}

proof fn lemma_ordered_remove_types(d: Seq<CtxElemV>, q: int)
    requires
        0 <= q < d.len(),
        d[q] is TypedVar,
    ensures
        covers_types(d, d.take(q) + d.skip(q + 1)),
{
    let r = d.take(q) + d.skip(q + 1);
    assert forall|i: int| 0 <= i < d.len() && !(d[i] is TypedVar) implies #[trigger] kept(d[i], r) by {
        if i < q {
            assert(r[i] == d[i]);
            assert(r.contains(d[i]));
            if d[i] is Exists {
                assert(r.contains(CtxElemV::Exists(d[i]->Exists_0)));
            }
        } else {
            assert(r[i - 1] == d[i]);
            assert(r.contains(d[i]));
            if d[i] is Exists {
                assert(r.contains(CtxElemV::Exists(d[i]->Exists_0)));
            }
        }
    }
}

proof fn lemma_insert_keeps_before(c: Seq<CtxElemV>, ex: NameV, ins: Seq<CtxElemV>, s: TypeV, j: int)
    requires
        c.contains(CtxElemV::Exists(ex)),
        ins.contains(CtxElemV::Solved(ex, s)),
        first_index(c, CtxElemV::Exists(ex)) < j <= c.len(),
    ensures
        covers_types(
            c.take(j),
            ctx_insert(c, CtxElemV::Exists(ex), ins).take(j + ins.len() - 1),
        ),
{
    let e = CtxElemV::Exists(ex);
    lemma_first_index_exists(c, e);
    let k = first_index(c, e);
    let l = ins.len() as int;
    let d = ctx_insert(c, e, ins);
    let pc = c.take(j);
    let pd = d.take(j + l - 1);
    assert forall|a: int| 0 <= a < pc.len() && !(pc[a] is TypedVar) implies #[trigger] kept(pc[a], pd) by {
        if a < k {
            assert(pd[a] == c[a]);
            assert(pd.contains(c[a]));
            if c[a] is Exists {
                assert(pd.contains(CtxElemV::Exists(c[a]->Exists_0)));
            }
        } else if a == k {
            let jj = choose|jj: int| 0 <= jj < ins.len() && ins[jj] == CtxElemV::Solved(ex, s);
            assert(pd[k + jj] == CtxElemV::Solved(ex, s));
            assert(pd.contains(CtxElemV::Solved(ex, s)));
            lemma_solved_in_contains(pd, ex);
        } else {
            assert(pd[a + l - 1] == c[a]);
            assert(pd.contains(c[a]));
            if c[a] is Exists {
                assert(pd.contains(CtxElemV::Exists(c[a]->Exists_0)));
            }
        }
    }
}

/// Replacing an unsolved existential by entries that are ordered after what
/// precedes it, among which is a solution for it, keeps the context ordered.
proof fn lemma_ordered_insert(c: Seq<CtxElemV>, ex: NameV, ins: Seq<CtxElemV>, s: TypeV)
    requires
        ordered(c),
        c.contains(CtxElemV::Exists(ex)),
        ins.contains(CtxElemV::Solved(ex, s)),
        ordered(c.take(first_index(c, CtxElemV::Exists(ex))) + ins),
    ensures
        ordered(ctx_insert(c, CtxElemV::Exists(ex), ins)),
{
    let e = CtxElemV::Exists(ex);
    lemma_first_index_exists(c, e);
    let k = first_index(c, e);
    let d = ctx_insert(c, e, ins);
    let h = c.take(k) + ins;
    let l = ins.len() as int;
    assert forall|i: int| 0 <= i < d.len() implies #[trigger] entry_ordered(d, i) by {
        if i < k + l {
            assert(entry_ordered(h, i));
            assert(d[i] == h[i]);
            assert(d.take(i) =~= h.take(i));
            assert(d.take(i + 1) =~= h.take(i + 1));
        } else {
            let j = i - l + 1;
            assert(entry_ordered(c, j));
            assert(d[i] == c[j]);
            lemma_insert_keeps_before(c, ex, ins, s, j);
            lemma_insert_keeps_before(c, ex, ins, s, j + 1);
            assert(covers_types(c.take(j), d.take(i)));
            assert(covers_types(c.take(j + 1), d.take(i + 1)));
            match c[j] {
                CtxElemV::TypedVar(_, t) => {
                    lemma_wf_covers(c.take(j), d.take(i), t);
                },
                CtxElemV::Solved(_, t) => {
                    lemma_wf_covers(c.take(j + 1), d.take(i + 1), t);
                },
                _ => {},
            }
        }
    }
}

proof fn lemma_ordered_solve(c: Seq<CtxElemV>, ex: NameV, t: TypeV)
    requires
        ordered(c),
        c.contains(CtxElemV::Exists(ex)),
        wf(ctx_before(c, CtxElemV::Exists(ex)), t),
    ensures
        ordered(solve(c, ex, t)),
{
    let e = CtxElemV::Exists(ex);
    lemma_first_index_exists(c, e);
    let k = first_index(c, e);
    let ins = seq![CtxElemV::Solved(ex, t)];
    assert(ins[0] == CtxElemV::Solved(ex, t));
    assert(ins.contains(CtxElemV::Solved(ex, t)));
    let h = c.take(k) + ins;
    lemma_ordered_prefix(c, k);
    assert(h =~= c.take(k).push(CtxElemV::Solved(ex, t)));
    assert forall|i: int| 0 <= i < h.len() implies #[trigger] entry_ordered(h, i) by {
        if i < k {
            assert(entry_ordered(c.take(k), i));
            assert(h.take(i) =~= c.take(k).take(i));
            assert(h.take(i + 1) =~= c.take(k).take(i + 1));
        } else {
            assert(h.take(i + 1) =~= h);
            assert(h.take(k) =~= c.take(k));
            lemma_wf_prefix(h, k, t);
        }
    }
    lemma_ordered_insert(c, ex, ins, t);
}

/// Solving an existential to an earlier one, or to itself, keeps the
/// context ordered.
proof fn lemma_ordered_reach(c: Seq<CtxElemV>, ex0: NameV, ex1: NameV)
    requires
        ordered(c),
        c.contains(CtxElemV::Exists(ex0)),
        c.contains(CtxElemV::Exists(ex1)),
        !wf(ctx_before(c, CtxElemV::Exists(ex0)), exists_v(ex1)),
    ensures
        ordered(solve(c, ex1, exists_v(ex0))),
{
    let e0 = CtxElemV::Exists(ex0);
    let e1 = CtxElemV::Exists(ex1);
    lemma_first_index_exists(c, e0);
    lemma_first_index_exists(c, e1);
    let k0 = first_index(c, e0);
    let k1 = first_index(c, e1);
    let t = exists_v(ex0);
    let ins = seq![CtxElemV::Solved(ex1, t)];
    assert(ins[0] == CtxElemV::Solved(ex1, t));
    assert(ins.contains(CtxElemV::Solved(ex1, t)));
    let h = c.take(k1) + ins;
    assert(h =~= c.take(k1).push(CtxElemV::Solved(ex1, t)));
    if k1 < k0 {
        assert(c.take(k0)[k1] == e1);
        assert(c.take(k0).contains(e1));
    }
    assert(k0 <= k1);
    lemma_ordered_prefix(c, k1);
    assert forall|i: int| 0 <= i < h.len() implies #[trigger] entry_ordered(h, i) by {
        if i < k1 {
            assert(entry_ordered(c.take(k1), i));
            assert(h.take(i) =~= c.take(k1).take(i));
            assert(h.take(i + 1) =~= c.take(k1).take(i + 1));
        } else {
            assert(h.take(i + 1) =~= h);
            if k0 < k1 {
                assert(h[k0] == e0);
                assert(h.contains(e0));
            } else {
                assert(ex0 == ex1);
                assert(h[k1] == CtxElemV::Solved(ex0, t));
                assert(h.contains(CtxElemV::Solved(ex0, t)));
                lemma_solved_in_contains(h, ex0);
            }
        }
    }
    lemma_ordered_insert(c, ex1, ins, t);
}

pub(crate) proof fn lemma_ordered_articulate(c: Seq<CtxElemV>, ex0: NameV, ex1: NameV, ex2: NameV, fun: bool)
    requires
        ordered(c),
        c.contains(CtxElemV::Exists(ex0)),
    ensures
        ordered(articulate(c, ex0, ex1, ex2, fun)),
{
    let e = CtxElemV::Exists(ex0);
    lemma_first_index_exists(c, e);
    let k = first_index(c, e);
    let t = if fun {
        TypeV::Fun(Box::new(exists_v(ex1)), Box::new(exists_v(ex2)))
    } else {
        TypeV::Tup(Box::new(exists_v(ex1)), Box::new(exists_v(ex2)))
    };
    let ins = seq![CtxElemV::Exists(ex2), CtxElemV::Exists(ex1), CtxElemV::Solved(ex0, t)];
    assert(ins[2] == CtxElemV::Solved(ex0, t));
    assert(ins.contains(CtxElemV::Solved(ex0, t)));
    let h = c.take(k) + ins;
    lemma_ordered_prefix(c, k);
    assert forall|i: int| 0 <= i < h.len() implies #[trigger] entry_ordered(h, i) by {
        if i < k {
            assert(entry_ordered(c.take(k), i));
            assert(h.take(i) =~= c.take(k).take(i));
            assert(h.take(i + 1) =~= c.take(k).take(i + 1));
        } else if i == k + 2 {
            let p = h.take(i + 1);
            assert(p[k] == CtxElemV::Exists(ex2));
            assert(p[k + 1] == CtxElemV::Exists(ex1));
            assert(p.contains(CtxElemV::Exists(ex2)));
            assert(p.contains(CtxElemV::Exists(ex1)));
            assert(wf(p, t)) by {
                reveal_with_fuel(wf, 2);
            }
        } else {
            assert(h[i] == ins[i - k]);
        }
    }
    lemma_ordered_insert(c, ex0, ins, t);
}

/// In an ordered context, the type a term variable has is well formed.
proof fn lemma_ordered_annotation(c: Seq<CtxElemV>, x: NameV)
    requires
        ordered(c),
    ensures
        annotation_in(c, x) matches Some(t) ==> wf(c, t),
{
    lemma_annotation_in_contains(c, x);
    if let Some(t) = annotation_in(c, x) {
        let j = choose|j: int| 0 <= j < c.len() && c[j] == CtxElemV::TypedVar(x, t);
        assert(entry_ordered(c, j));
        lemma_wf_prefix(c, j, t);
    }
}

/// Applying an ordered context to a well-formed monotype gives a type well
/// formed in it.
proof fn lemma_apply_wf(fuel: nat, t: TypeV, c: Seq<CtxElemV>)
    requires
        ordered(c),
        solutions_mono(c),
        is_mono(t),
        wf(c, t),
    ensures
        apply_spec(fuel, t, c) matches Ok(r) ==> wf(c, r),
    decreases fuel, t,
{
    match t {
        TypeV::Exists(ex) => {
            if let Some(t1) = solved_in(c, ex) {
                lemma_solved_in_contains(c, ex);
                let j = choose|j: int| 0 <= j < c.len() && c[j] == CtxElemV::Solved(ex, t1);
                assert(entry_ordered(c, j));
                assert(c[j] is Solved);
                lemma_wf_prefix(c, j + 1, t1);
                if fuel > 0 {
                    lemma_apply_wf((fuel - 1) as nat, t1, c);
                }
            }
        },
        TypeV::Fun(a, b) => {
            lemma_apply_wf(fuel, *a, c);
            lemma_apply_wf(fuel, *b, c);
        },
        TypeV::Tup(a, b) => {
            lemma_apply_wf(fuel, *a, c);
            lemma_apply_wf(fuel, *b, c);
        },
        _ => {},
    }
}

/// `x` is bound by a λ or a let in `e`.
pub open spec fn binds(e: Expr, x: NameV) -> bool
    decreases e,
{
    match e {
        Expr::Abs(y, b) => y@ == x || binds(*b, x),
        Expr::Let(y, a, b) => y@ == x || binds(*a, x) || binds(*b, x),
        Expr::App(a, b) => binds(*a, x) || binds(*b, x),
        Expr::Tup(a, b) => binds(*a, x) || binds(*b, x),
        Expr::Ann(a, _) => binds(*a, x),
        _ => false,
    }
}

/// Every annotation of `e` is a monotype, and no λ or let of `e` binds its
/// name again inside its own scope.
pub open spec fn mono_program(e: Expr) -> bool
    decreases e,
{
    match e {
        Expr::Abs(y, b) => !binds(*b, y@) && mono_program(*b),
        Expr::Let(y, a, b) => !binds(*b, y@) && mono_program(*a) && mono_program(*b),
        Expr::App(a, b) => mono_program(*a) && mono_program(*b),
        Expr::Tup(a, b) => mono_program(*a) && mono_program(*b),
        Expr::Ann(a, t) => is_mono(t@) && mono_program(*a),
        _ => true,
    }
}

/// No name that `e` binds is a typed term variable of `c`.
pub open spec fn binders_fresh(e: Expr, c: Seq<CtxElemV>) -> bool {
    forall|x: NameV| #[trigger] binds(e, x) ==> !annotated(c, x)
}

/// The types of the term variables and the solutions of `c` are monotypes.
pub open spec fn mono_context(c: Seq<CtxElemV>) -> bool {
    typed_mono(c) && solutions_mono(c)
}

proof fn lemma_push_mono(c: Seq<CtxElemV>, e: CtxElemV)
    requires
        mono_context(c),
        e is TypedVar ==> is_mono(e->TypedVar_1),
        !(e is Solved),
    ensures
        mono_context(c.push(e)),
        forall|y: NameV| #[trigger] annotated(c.push(e), y) ==> annotated(c, y) || (e is TypedVar
            && e->TypedVar_0 == y),
{
    let d = c.push(e);
    lemma_typed_of_push(c, e);
    assert forall|i: int| 0 <= i < d.len() && #[trigger] d[i] is Solved implies is_mono(d[i]->Solved_1) by {
        assert(d[i] == c[i]);
    }
    assert forall|i: int| 0 <= i < typed_of(d).len() implies is_mono(#[trigger] typed_of(d)[i]->TypedVar_1) by {
        if i < typed_of(c).len() {
            assert(typed_of(d)[i] == typed_of(c)[i]);
        }
    }
    assert forall|y: NameV| #[trigger] annotated(d, y) implies annotated(c, y) || (e is TypedVar
        && e->TypedVar_0 == y) by {
        let i = choose|i: int| 0 <= i < typed_of(d).len() && #[trigger] typed_of(d)[i]->TypedVar_0 == y;
        if i < typed_of(c).len() {
            assert(typed_of(d)[i] == typed_of(c)[i]);
        }
    }
}

proof fn lemma_prefix_mono(d: Seq<CtxElemV>, q: int)
    requires
        solutions_mono(d),
        0 <= q <= d.len(),
    ensures
        solutions_mono(d.take(q)),
{
    assert forall|i: int| 0 <= i < d.take(q).len() && #[trigger] d.take(q)[i] is Solved implies is_mono(
        d.take(q)[i]->Solved_1,
    ) by {
        assert(d.take(q)[i] == d[i]);
    }
}

proof fn lemma_annotation_in_contains(c: Seq<CtxElemV>, x: NameV)
    ensures
        annotation_in(c, x) matches Some(t) ==> c.contains(CtxElemV::TypedVar(x, t)),
    decreases c.len(),
{
    if c.len() > 0 {
        lemma_annotation_in_contains(c.drop_first(), x);
        if let Some(t) = annotation_in(c, x) {
            if c[0] != CtxElemV::TypedVar(x, t) {
                let j = choose|j: int| 0 <= j < c.drop_first().len() && c.drop_first()[j] == CtxElemV::TypedVar(x, t);
                assert(c[j + 1] == CtxElemV::TypedVar(x, t));
            }
        }
    }
}

/// Checking a monotype, under the conditions of `lemma_synth_extends`,
/// extends its input context.
pub proof fn lemma_check_extends(fuel: nat, n: nat, c: Seq<CtxElemV>, e: Expr, t: TypeV)
    requires
        mono_context(c),
        ordered(c),
        mono_program(e),
        binders_fresh(e, c),
        is_mono(t),
    ensures
        check_spec(fuel, n, c, e, t) matches Ok((d, m)) ==> extends(c, d) && mono_context(d)
            && ordered(d),
    decreases fuel,
{
    lemma_extends_refl(c);
    if fuel > 0 && wf(c, t) {
        let f = (fuel - 1) as nat;
        match (e, t) {
            (Expr::Lit(l), TypeV::Lit(lt)) => {},
            (Expr::Abs(x, body), TypeV::Fun(t0, t1)) => {
                let elem = CtxElemV::TypedVar(x@, *t0);
                if c.len() < usize::MAX {
                    let c1 = c.push(elem);
                    lemma_push_mono(c, elem);
                    lemma_ordered_push(c, elem);
                    assert(binds(e, x@));
                    assert forall|y: NameV| #[trigger] binds(*body, y) implies !annotated(c1, y) by {
                        assert(binds(e, y));
                    }
                    lemma_check_extends(f, n, c1, *body, *t1);
                    if let Ok((c2, n2)) = check_spec(f, n, c1, *body, *t1) {
                        lemma_not_annotated(c, x@, *t0);
                        lemma_extends_cut(c, elem, c2);
                        lemma_first_index_exists(c2, elem);
                        lemma_prefix_mono(c2, first_index(c2, elem));
                        lemma_ordered_prefix(c2, first_index(c2, elem));
                    }
                }
            },
            (_, TypeV::Forall(a, t2)) => {},
            (Expr::Tup(e0, e1), TypeV::Tup(t0, t1)) => {
                assert forall|y: NameV| #[trigger] binds(*e0, y) implies !annotated(c, y) by {
                    assert(binds(e, y));
                }
                lemma_check_extends(f, n, c, *e0, *t0);
                if let Ok((c1, n1)) = check_spec(f, n, c, *e0, *t0) {
                    assert forall|y: NameV| #[trigger] binds(*e1, y) implies !annotated(c1, y) by {
                        assert(binds(e, y));
                    }
                    lemma_check_extends(f, n1, c1, *e1, *t1);
                    if let Ok((d, m)) = check_spec(f, n1, c1, *e1, *t1) {
                        lemma_extends_trans(c, c1, d);
                    }
                }
            },
            _ => {
                lemma_synth_extends(f, n, c, e);
                if let Ok((t1, c1, n1)) = synth_spec(f, n, c, e) {
                    lemma_apply_mono(f, t1, c1);
                    lemma_apply_mono(f, t, c1);
                    if let Ok(t2) = apply_spec(f, t1, c1) {
                        if let Ok(t3) = apply_spec(f, t, c1) {
                            lemma_subtype_keeps(f, n1, c1, t2, t3);
                            if let Ok((d, m)) = subtype_spec(f, n1, c1, t2, t3) {
                                lemma_extends_trans(c, c1, d);
                            }
                        }
                    }
                }
            },
        }
    }
}

/// Synthesis for a program whose annotations are monotypes and none of whose
/// λs and lets binds its name again inside its own scope or binds a name that
/// the context already types, in a context whose term variables have
/// monotypes and whose solutions are monotypes, gives a monotype and extends
/// its input context.
pub proof fn lemma_synth_extends(fuel: nat, n: nat, c: Seq<CtxElemV>, e: Expr)
    requires
        mono_context(c),
        ordered(c),
        mono_program(e),
        binders_fresh(e, c),
    ensures
        synth_spec(fuel, n, c, e) matches Ok((t, d, m)) ==> is_mono(t) && extends(c, d)
            && mono_context(d) && ordered(d) && wf(d, t),
    decreases fuel,
{
    lemma_extends_refl(c);
    if fuel > 0 {
        let f = (fuel - 1) as nat;
        match e {
            Expr::Var(x) => {
                lemma_ordered_annotation(c, x@);
                lemma_annotation_in_contains(c, x@);
                if let Some(t) = annotation_in(c, x@) {
                    lemma_typed_of_contains(c, CtxElemV::TypedVar(x@, t));
                    let i = choose|i: int| 0 <= i < typed_of(c).len() && typed_of(c)[i] == CtxElemV::TypedVar(x@, t);
                    assert(is_mono(typed_of(c)[i]->TypedVar_1));
                }
            },
            Expr::Ann(e1, t) => {
                if wf(c, t@) {
                    assert forall|y: NameV| #[trigger] binds(*e1, y) implies !annotated(c, y) by {
                        assert(binds(e, y));
                    }
                    lemma_check_extends(f, n, c, *e1, t@);
                    if let Ok((c1, n1)) = check_spec(f, n, c, *e1, t@) {
                        lemma_wf_covers(c, c1, t@);
                    }
                }
            },
            Expr::Abs(x, body) => {
                if !(n + 2 > usize::MAX || c.len() + 3 > usize::MAX) {
                    let ex0 = NameV::Index(n);
                    let ex1 = NameV::Index(n + 1);
                    let tv = CtxElemV::TypedVar(x@, exists_v(ex0));
                    let ca = c.push(CtxElemV::Exists(ex0));
                    let cb = ca.push(CtxElemV::Exists(ex1));
                    let c1 = cb.push(tv);
                    lemma_push_mono(c, CtxElemV::Exists(ex0));
                    lemma_push_mono(ca, CtxElemV::Exists(ex1));
                    lemma_push_mono(cb, tv);
                    lemma_ordered_push(c, CtxElemV::Exists(ex0));
                    lemma_ordered_push(ca, CtxElemV::Exists(ex1));
                    assert(cb[c.len() as int] == CtxElemV::Exists(ex0));
                    assert(cb[c.len() as int + 1] == CtxElemV::Exists(ex1));
                    assert(cb.contains(CtxElemV::Exists(ex0)));
                    assert(cb.contains(CtxElemV::Exists(ex1)));
                    lemma_ordered_push(cb, tv);
                    lemma_extends_push(c, CtxElemV::Exists(ex0));
                    lemma_extends_push(ca, CtxElemV::Exists(ex1));
                    lemma_extends_trans(c, ca, cb);
                    assert(binds(e, x@));
                    assert forall|y: NameV| #[trigger] binds(*body, y) implies !annotated(c1, y) by {
                        assert(binds(e, y));
                    }
                    lemma_check_extends(f, n + 2, c1, *body, exists_v(ex1));
                    if let Ok((c2, n2)) = check_spec(f, n + 2, c1, *body, exists_v(ex1)) {
                        lemma_not_annotated(cb, x@, exists_v(ex0));
                        lemma_extends_cut(cb, tv, c2);
                        lemma_extends_trans(c, cb, ctx_before(c2, tv));
                        lemma_first_index_exists(c2, tv);
                        lemma_prefix_mono(c2, first_index(c2, tv));
                        lemma_ordered_prefix(c2, first_index(c2, tv));
                        let ft = TypeV::Fun(Box::new(exists_v(ex0)), Box::new(exists_v(ex1)));
                        assert(is_mono(ft)) by {
                            reveal_with_fuel(is_mono, 2);
                        }
                        assert(wf(cb, ft)) by {
                            reveal_with_fuel(wf, 2);
                        }
                        lemma_wf_covers(cb, ctx_before(c2, tv), ft);
                    }
                }
            },
            Expr::Tup(e0, e1) => {
                assert forall|y: NameV| #[trigger] binds(*e0, y) implies !annotated(c, y) by {
                    assert(binds(e, y));
                }
                lemma_synth_extends(f, n, c, *e0);
                if let Ok((t1, c1, n1)) = synth_spec(f, n, c, *e0) {
                    assert forall|y: NameV| #[trigger] binds(*e1, y) implies !annotated(c1, y) by {
                        assert(binds(e, y));
                    }
                    lemma_synth_extends(f, n1, c1, *e1);
                    if let Ok((t2, c2, n2)) = synth_spec(f, n1, c1, *e1) {
                        lemma_extends_trans(c, c1, c2);
                        lemma_wf_covers(c1, c2, t1);
                    }
                }
            },
            Expr::Let(x, e0, e1) => {
                assert forall|y: NameV| #[trigger] binds(*e0, y) implies !annotated(c, y) by {
                    assert(binds(e, y));
                }
                lemma_synth_extends(f, n, c, *e0);
                if let Ok((t0, c1, n1)) = synth_spec(f, n, c, *e0) {
                    if c1.len() < usize::MAX {
                        let tv = CtxElemV::TypedVar(x@, t0);
                        let c1p = c1.push(tv);
                        lemma_push_mono(c1, tv);
                        lemma_ordered_push(c1, tv);
                        assert(binds(e, x@));
                        assert forall|y: NameV| #[trigger] binds(*e1, y) implies !annotated(c1p, y) by {
                            assert(binds(e, y));
                        }
                        lemma_synth_extends(f, n1, c1p, *e1);
                        if let Ok((t1, c3, n3)) = synth_spec(f, n1, c1p, *e1) {
                            if c3.contains(tv) {
                                lemma_not_annotated(c1, x@, t0);
                                lemma_extends_cut(c1, tv, c3);
                                lemma_extends_trans(c, c1, ctx_insert(c3, tv, Seq::empty()));
                                assert(solutions_mono(Seq::<CtxElemV>::empty()));
                                lemma_mono_insert(c3, tv, Seq::empty());
                                lemma_first_index_exists(c3, tv);
                                let q = first_index(c3, tv);
                                assert(ctx_insert(c3, tv, Seq::empty()) =~= c3.take(q) + c3.skip(q + 1));
                                lemma_ordered_remove(c3, q);
                                lemma_wf_covers(c3, ctx_insert(c3, tv, Seq::empty()), t1);
                            }
                        }
                    }
                }
            },
            Expr::App(e0, e1) => {
                assert forall|y: NameV| #[trigger] binds(*e0, y) implies !annotated(c, y) by {
                    assert(binds(e, y));
                }
                lemma_synth_extends(f, n, c, *e0);
                if let Ok((t, c1, n1)) = synth_spec(f, n, c, *e0) {
                    lemma_apply_mono(f, t, c1);
                    lemma_apply_wf(f, t, c1);
                    if let Ok(ta) = apply_spec(f, t, c1) {
                        assert forall|y: NameV| #[trigger] binds(*e1, y) implies !annotated(c1, y) by {
                            assert(binds(e, y));
                        }
                        lemma_app_synth_extends(f, n1, c1, ta, *e1);
                        if let Ok((t2, d, m)) = app_synth_spec(f, n1, c1, ta, *e1) {
                            lemma_extends_trans(c, c1, d);
                        }
                    }
                }
            },
            _ => {},
        }
    }
}

/// Application synthesis at a monotype, under the conditions of
/// `lemma_synth_extends`, gives a monotype and extends its input context.
pub proof fn lemma_app_synth_extends(fuel: nat, n: nat, c: Seq<CtxElemV>, t: TypeV, e: Expr)
    requires
        mono_context(c),
        ordered(c),
        mono_program(e),
        binders_fresh(e, c),
        is_mono(t),
        wf(c, t),
    ensures
        app_synth_spec(fuel, n, c, t, e) matches Ok((t2, d, m)) ==> is_mono(t2) && extends(c, d)
            && mono_context(d) && ordered(d) && wf(d, t2),
    decreases fuel,
{
    if fuel > 0 {
        let f = (fuel - 1) as nat;
        match t {
            TypeV::Exists(ex0) => {
                if n + 2 <= usize::MAX && c.contains(CtxElemV::Exists(ex0)) && c.len() + 2
                    <= usize::MAX {
                    let ex1 = NameV::Index(n);
                    let ex2 = NameV::Index(n + 1);
                    let c1 = articulate(c, ex0, ex1, ex2, true);
                    lemma_articulate_keeps(c, ex0, ex1, ex2, true);
                    lemma_ordered_articulate(c, ex0, ex1, ex2, true);
                    lemma_check_extends(f, n + 2, c1, e, exists_v(ex1));
                    if let Ok((d, m)) = check_spec(f, n + 2, c1, e, exists_v(ex1)) {
                        lemma_extends_trans(c, c1, d);
                        lemma_first_index_exists(c, CtxElemV::Exists(ex0));
                        let k = first_index(c, CtxElemV::Exists(ex0));
                        assert(c1[k] == CtxElemV::Exists(ex2));
                        assert(c1.contains(CtxElemV::Exists(ex2)));
                        lemma_wf_covers(c1, d, exists_v(ex2));
                    }
                }
            },
            TypeV::Fun(t0, t1) => {
                lemma_check_extends(f, n, c, e, *t0);
                if let Ok((d, m)) = check_spec(f, n, c, e, *t0) {
                    lemma_wf_covers(c, d, *t1);
                }
            },
            _ => {},
        }
    }
}

/// Synthesis gives a type well formed in the context it returns, and that
/// context keeps every type well formed in its input context well formed:
/// for a program whose annotations are monotypes and none of whose λs and
/// lets binds its name again inside its own scope or binds a name that the
/// context already types, in a context whose term variables have monotypes
/// well formed in what precedes them and whose solutions are monotypes well
/// formed in what precedes them.
pub proof fn lemma_synth_well_formed(fuel: nat, n: nat, c: Seq<CtxElemV>, e: Expr)
    requires
        mono_context(c),
        ordered(c),
        mono_program(e),
        binders_fresh(e, c),
    ensures
        synth_spec(fuel, n, c, e) matches Ok((t, d, m)) ==> wf(d, t) && forall|u: TypeV| #[trigger]
            wf(c, u) ==> wf(d, u),
{
    lemma_synth_extends(fuel, n, c, e);
    if let Ok((t, d, m)) = synth_spec(fuel, n, c, e) {
        assert forall|u: TypeV| #[trigger] wf(c, u) implies wf(d, u) by {
            lemma_wf_covers(c, d, u);
        }
    }
}

/// `r` is the codomain of the function type `t` as `d` has it: `t` is
/// `A -> r`, or an existential that `d` solves to `A -> r`.
pub open spec fn is_codomain(t: TypeV, r: TypeV, d: Seq<CtxElemV>) -> bool {
    match t {
        TypeV::Fun(_, b) => *b == r,
        TypeV::Exists(x) => exists|a: TypeV| #[trigger]
            d.contains(CtxElemV::Solved(x, TypeV::Fun(Box::new(a), Box::new(r)))),
        _ => false,
    }
}

/// The type that application synthesis gives is the codomain of the
/// function type it applies: a function type given as `A -> B` gives `B`;
/// an unsolved existential gives `C` where the returned context solves the
/// existential to `A -> C`. For a program and a context as in
/// `lemma_synth_extends`, at a well-formed monotype.
pub proof fn lemma_app_synth_codomain(fuel: nat, n: nat, c: Seq<CtxElemV>, t: TypeV, e: Expr)
    requires
        mono_context(c),
        ordered(c),
        mono_program(e),
        binders_fresh(e, c),
        is_mono(t),
        wf(c, t),
    ensures
        app_synth_spec(fuel, n, c, t, e) matches Ok((r, d, m)) ==> is_codomain(t, r, d),
{
    if fuel > 0 {
        let f = (fuel - 1) as nat;
        match t {
            TypeV::Exists(ex0) => {
                if n + 2 <= usize::MAX && c.contains(CtxElemV::Exists(ex0)) && c.len() + 2
                    <= usize::MAX {
                    let ex1 = NameV::Index(n);
                    let ex2 = NameV::Index(n + 1);
                    let c1 = articulate(c, ex0, ex1, ex2, true);
                    lemma_articulate_keeps(c, ex0, ex1, ex2, true);
                    lemma_ordered_articulate(c, ex0, ex1, ex2, true);
                    lemma_check_extends(f, n + 2, c1, e, exists_v(ex1));
                    if let Ok((d, m)) = check_spec(f, n + 2, c1, e, exists_v(ex1)) {
                        lemma_first_index_exists(c, CtxElemV::Exists(ex0));
                        let k = first_index(c, CtxElemV::Exists(ex0));
                        let sol = CtxElemV::Solved(
                            ex0,
                            TypeV::Fun(Box::new(exists_v(ex1)), Box::new(exists_v(ex2))),
                        );
                        assert(c1[k + 2] == sol);
                        assert(kept(c1[k + 2], d));
                        assert(d.contains(sol));
                        assert(app_synth_spec(fuel, n, c, t, e) == Ok::<(TypeV, Seq<CtxElemV>, nat), TypeError>((exists_v(ex2), d, m)));
                        assert(is_codomain(t, exists_v(ex2), d));
                    }
                }
            },
            TypeV::Fun(t0, t1) => {
                if let Ok((c1, n1)) = check_spec(f, n, c, e, *t0) {
                    assert(app_synth_spec(fuel, n, c, t, e) == Ok::<(TypeV, Seq<CtxElemV>, nat), TypeError>((*t1, c1, n1)));
                    assert(is_codomain(t, *t1, c1));
                }
            },
            _ => {},
        }
    }
}

} // verus!
