//! Ordered typing contexts (the "hole notation" of Section 3.1) and
//! well-formedness of types (Figure 7).
use vstd::prelude::*;
use im_rc::Vector;
use crate::syntax::{Name, NameV, Type, TypeV, names_equal, types_equal};
use crate::vector::{
    vector_contents, vector_new, vector_clone, vector_len, vector_index, vector_push_back,
    vector_split_at, vector_split_off, vector_append,
};

verus! {

/// An element of a context.
#[derive(Debug, Clone, PartialEq, Eq)]
pub enum CtxElem {
    /// Variable
    Var(Name),
    /// Existential type variable
    Exists(Name),
    /// Solved type variable
    Solved(Name, Type),
    /// Marker type variable
    Marker(Name),
    /// Typed term variable
    TypedVar(Name, Type),
}

pub ghost enum CtxElemV {
    Var(NameV),
    Exists(NameV),
    Solved(NameV, TypeV),
    Marker(NameV),
    TypedVar(NameV, TypeV),
}

impl View for CtxElem {
    type V = CtxElemV;

    open spec fn view(&self) -> CtxElemV {
        match self {
            CtxElem::Var(x) => CtxElemV::Var(x@),
            CtxElem::Exists(x) => CtxElemV::Exists(x@),
            CtxElem::Solved(x, t) => CtxElemV::Solved(x@, t@),
            CtxElem::Marker(x) => CtxElemV::Marker(x@),
            CtxElem::TypedVar(x, t) => CtxElemV::TypedVar(x@, t@),
        }
    }
}

impl CtxElem {
    /// A copy of the element, equal to it.
    pub fn duplicate(&self) -> (r: CtxElem)
        ensures
            r == *self,
            r@ == self@,
    {
        match self {
            CtxElem::Var(x) => CtxElem::Var(*x),
            CtxElem::Exists(x) => CtxElem::Exists(*x),
            CtxElem::Solved(x, t) => CtxElem::Solved(*x, t.duplicate()),
            CtxElem::Marker(x) => CtxElem::Marker(*x),
            CtxElem::TypedVar(x, t) => CtxElem::TypedVar(*x, t.duplicate()),
        }
    }
}

/// Equality of context elements by their views.
pub fn elems_equal(a: &CtxElem, b: &CtxElem) -> (r: bool)
    ensures
        r == (a@ == b@),
{
    match (a, b) {
        (CtxElem::Var(x), CtxElem::Var(y)) => names_equal(*x, *y),
        (CtxElem::Exists(x), CtxElem::Exists(y)) => names_equal(*x, *y),
        (CtxElem::Solved(x, s), CtxElem::Solved(y, t)) => names_equal(*x, *y) && types_equal(s, t),
        (CtxElem::Marker(x), CtxElem::Marker(y)) => names_equal(*x, *y),
        (CtxElem::TypedVar(x, s), CtxElem::TypedVar(y, t)) => names_equal(*x, *y) && types_equal(s, t),
        _ => false,
    }
}

/// `i` is the position of the first occurrence of `e` in `c`.
pub open spec fn is_first_index(c: Seq<CtxElemV>, e: CtxElemV, i: int) -> bool {
    &&& 0 <= i < c.len()
    &&& c[i] == e
    &&& forall|j: int| 0 <= j < i ==> c[j] != e
}

/// The position of the first occurrence of `e` in `c` (meaningful when `c`
/// contains `e`).
pub open spec fn first_index(c: Seq<CtxElemV>, e: CtxElemV) -> int {
    choose|i: int| is_first_index(c, e, i)
}

pub proof fn lemma_first_index_unique(c: Seq<CtxElemV>, e: CtxElemV, i: int)
    requires
        is_first_index(c, e, i),
    ensures
        first_index(c, e) == i,
{
    let k = first_index(c, e);
    assert(is_first_index(c, e, k));
    if k < i {
        assert(c[k] != e);
    }
    if i < k {
        assert(c[i] != e);
    }
}

pub proof fn lemma_first_index_exists(c: Seq<CtxElemV>, e: CtxElemV)
    requires
        c.contains(e),
    ensures
        is_first_index(c, e, first_index(c, e)),
{
    c.index_of_first_ensures(e);
    let i = c.index_of_first(e).unwrap();
    assert(is_first_index(c, e, i));
    lemma_first_index_unique(c, e, i);
}

/// Split at `e`, with `e` itself at the end of the left-hand side.
pub open spec fn ctx_split(c: Seq<CtxElemV>, e: CtxElemV) -> (Seq<CtxElemV>, Seq<CtxElemV>) {
    let i = first_index(c, e);
    (c.take(i + 1), c.skip(i + 1))
}

/// `e` replaced by `ins`.
pub open spec fn ctx_insert(c: Seq<CtxElemV>, e: CtxElemV, ins: Seq<CtxElemV>) -> Seq<CtxElemV> {
    let i = first_index(c, e);
    c.take(i) + ins + c.skip(i + 1)
}

/// Everything after `e` removed.
pub open spec fn ctx_drop(c: Seq<CtxElemV>, e: CtxElemV) -> Seq<CtxElemV> {
    c.take(first_index(c, e) + 1)
}

/// The part of `c` before `e`: `e` and everything after it removed.
pub open spec fn ctx_before(c: Seq<CtxElemV>, e: CtxElemV) -> Seq<CtxElemV> {
    c.take(first_index(c, e))
}

/// The solution of the first `Solved` entry for `a`, if any.
pub open spec fn solved_in(c: Seq<CtxElemV>, a: NameV) -> Option<TypeV>
    decreases c.len(),
{
    if c.len() == 0 {
        None
    } else {
        match c[0] {
            CtxElemV::Solved(b, t) => if b == a { Some(t) } else { solved_in(c.drop_first(), a) },
            _ => solved_in(c.drop_first(), a),
        }
    }
}

/// The type of the first `TypedVar` entry for `x`, if any.
pub open spec fn annotation_in(c: Seq<CtxElemV>, x: NameV) -> Option<TypeV>
    decreases c.len(),
{
    if c.len() == 0 {
        None
    } else {
        match c[0] {
            CtxElemV::TypedVar(b, t) => if b == x { Some(t) } else { annotation_in(c.drop_first(), x) },
            _ => annotation_in(c.drop_first(), x),
        }
    }
}

/// Figure 7: `t` is well formed in `c`.
pub open spec fn wf(c: Seq<CtxElemV>, t: TypeV) -> bool
    decreases t,
{
    match t {
        TypeV::Lit(_) => true,
        TypeV::Var(x) => c.contains(CtxElemV::Var(x)),
        TypeV::Fun(a, b) => wf(c, *a) && wf(c, *b),
        TypeV::Forall(a, b) => wf(c.push(CtxElemV::Var(a)), *b),
        TypeV::Exists(x) => c.contains(CtxElemV::Exists(x)) || solved_in(c, x) is Some,
        TypeV::Tup(a, b) => wf(c, *a) && wf(c, *b),
    }
}

/// Variable entries for the names `bs`, in order.
pub open spec fn vars_of(bs: Seq<NameV>) -> Seq<CtxElemV> {
    bs.map_values(|x: NameV| CtxElemV::Var(x))
}

/// Well-formedness of `t` in `c` extended by variable entries for `bs`.
pub open spec fn wf_ext(c: Seq<CtxElemV>, bs: Seq<NameV>, t: TypeV) -> bool
    decreases t,
{
    match t {
        TypeV::Lit(_) => true,
        TypeV::Var(x) => c.contains(CtxElemV::Var(x)) || bs.contains(x),
        TypeV::Fun(a, b) => wf_ext(c, bs, *a) && wf_ext(c, bs, *b),
        TypeV::Forall(a, b) => wf_ext(c, bs.push(a), *b),
        TypeV::Exists(x) => c.contains(CtxElemV::Exists(x)) || solved_in(c, x) is Some,
        TypeV::Tup(a, b) => wf_ext(c, bs, *a) && wf_ext(c, bs, *b),
    }
}

proof fn lemma_solved_in_vars(c: Seq<CtxElemV>, bs: Seq<NameV>, a: NameV)
    ensures
        solved_in(c + vars_of(bs), a) == solved_in(c, a),
    decreases c.len(), bs.len(),
{
    if c.len() == 0 {
        assert(c + vars_of(bs) =~= vars_of(bs));
        if bs.len() > 0 {
            assert(vars_of(bs).drop_first() =~= vars_of(bs.drop_first()));
            assert(Seq::<CtxElemV>::empty() + vars_of(bs.drop_first()) =~= vars_of(bs.drop_first()));
            lemma_solved_in_vars(c, bs.drop_first(), a);
        }
    } else {
        assert((c + vars_of(bs)).drop_first() =~= c.drop_first() + vars_of(bs));
        assert((c + vars_of(bs))[0] == c[0]);
        lemma_solved_in_vars(c.drop_first(), bs, a);
    }
}

proof fn lemma_contains_vars(c: Seq<CtxElemV>, bs: Seq<NameV>, e: CtxElemV)
    ensures
        (c + vars_of(bs)).contains(e) == (c.contains(e) || vars_of(bs).contains(e)),
        vars_of(bs).contains(e) == (e is Var && bs.contains(e->Var_0)),
{
    let s = c + vars_of(bs);
    if c.contains(e) {
        let i = choose|i: int| 0 <= i < c.len() && c[i] == e;
        assert(s[i] == e);
    }
    if vars_of(bs).contains(e) {
        let j = choose|j: int| 0 <= j < vars_of(bs).len() && vars_of(bs)[j] == e;
        assert(s[c.len() + j] == e);
        assert(bs[j] == e->Var_0);
    }
    if s.contains(e) {
        let k = choose|k: int| 0 <= k < s.len() && s[k] == e;
        if k < c.len() {
            assert(c[k] == e);
        } else {
            assert(vars_of(bs)[k - c.len()] == e);
        }
    }
    if e is Var && bs.contains(e->Var_0) {
        let j = choose|j: int| 0 <= j < bs.len() && bs[j] == e->Var_0;
        assert(vars_of(bs)[j] == e);
    }
}

proof fn lemma_wf_ext(c: Seq<CtxElemV>, bs: Seq<NameV>, t: TypeV)
    ensures
        wf(c + vars_of(bs), t) == wf_ext(c, bs, t),
    decreases t,
{
    match t {
        TypeV::Lit(_) => {},
        TypeV::Var(x) => {
            lemma_contains_vars(c, bs, CtxElemV::Var(x));
        },
        TypeV::Exists(x) => {
            lemma_contains_vars(c, bs, CtxElemV::Exists(x));
            lemma_solved_in_vars(c, bs, x);
        },
        TypeV::Forall(a, b) => {
            assert((c + vars_of(bs)).push(CtxElemV::Var(a)) =~= c + vars_of(bs.push(a)));
            lemma_wf_ext(c, bs.push(a), *b);
        },
        TypeV::Fun(a, b) => {
            lemma_wf_ext(c, bs, *a);
            lemma_wf_ext(c, bs, *b);
        },
        TypeV::Tup(a, b) => {
            lemma_wf_ext(c, bs, *a);
            lemma_wf_ext(c, bs, *b);
        },
    }
}

/// As the context needs to be ordered, it is implemented as a persistent vector.
#[derive(Debug, PartialEq, Eq)]
pub struct Ctx {
    elements: Vector<CtxElem>,
}

impl Ctx {
    /// The elements of the context, in order.
    pub closed spec fn entries(&self) -> Seq<CtxElem> {
        vector_contents(self.elements)
    }
}

impl View for Ctx {
    type V = Seq<CtxElemV>;

    closed spec fn view(&self) -> Seq<CtxElemV> {
        vector_contents(self.elements).map_values(|e: CtxElem| e@)
    }
}

impl Clone for Ctx {
    fn clone(&self) -> (r: Ctx)
        ensures
            r@ == self@,
    {
        Ctx { elements: vector_clone(&self.elements) }
    }
}

impl Default for Ctx {
    fn default() -> (r: Ctx)
        ensures
            r@ == Seq::<CtxElemV>::empty(),
    {
        Ctx::new()
    }
}

/// Context operations derive from "Hole notation" described in 3.1 and the fact that the context is ordered.
impl Ctx {
    /// The empty context.
    pub fn new() -> (r: Ctx)
        ensures
            r@ == Seq::<CtxElemV>::empty(),
    {
        let r = Ctx { elements: vector_new() };
        assert(r@ =~= Seq::<CtxElemV>::empty());
        r
    }

    /// The number of elements.
    pub fn len(&self) -> (r: usize)
        ensures
            r == self@.len(),
            r == self.entries().len(),
    {
        vector_len(&self.elements)
    }

    /// The element at position `i`.
    pub fn get(&self, i: usize) -> (r: &CtxElem)
        requires
            i < self@.len(),
        ensures
            r@ == self@[i as int],
            *r == self.entries()[i as int],
    {
        vector_index(&self.elements, i)
    }

    /// Adds an element to the end of the context
    pub fn add(&self, element: CtxElem) -> (r: Ctx)
        requires
            self@.len() < usize::MAX,
        ensures
            r@ == self@.push(element@),
    {
        let mut eles = vector_clone(&self.elements);
        proof {
            assert(vector_contents(self.elements).map_values(|e: CtxElem| e@).len()
                == vector_contents(self.elements).len());
        }
        vector_push_back(&mut eles, element);
        let r = Ctx { elements: eles };
        assert(r@ =~= self@.push(element@));
        r
    }

    /// The position of the first element equal to `element`.
    pub fn position(&self, element: &CtxElem) -> (r: Option<usize>)
        ensures
            self@.len() <= usize::MAX,
            match r {
                Some(i) => is_first_index(self@, element@, i as int),
                None => !self@.contains(element@),
            },
    {
        let n = self.len();
        let mut i: usize = 0;
        while i < n
            invariant
                n == self@.len(),
                i <= n,
                forall|j: int| 0 <= j < i ==> self@[j] != element@,
            decreases n - i,
        {
            if elems_equal(self.get(i), element) {
                return Some(i);
            }
            i += 1;
        }
        None
    }

    /// Whether some element equals `element`.
    pub fn contains(&self, element: &CtxElem) -> (r: bool)
        ensures
            self@.len() <= usize::MAX,
            r == self@.contains(element@),
    {
        match self.position(element) {
            Some(i) => true,
            None => false,
        }
    }

    proof fn lemma_view_take_skip(&self, i: int)
        requires
            0 <= i <= self@.len(),
        ensures
            vector_contents(self.elements).take(i).map_values(|e: CtxElem| e@) == self@.take(i),
            vector_contents(self.elements).skip(i).map_values(|e: CtxElem| e@) == self@.skip(i),
    {
        assert(vector_contents(self.elements).take(i).map_values(|e: CtxElem| e@) =~= self@.take(i));
        assert(vector_contents(self.elements).skip(i).map_values(|e: CtxElem| e@) =~= self@.skip(i));
    }

    /// Splits a context at the index of an element, the element is included in the left-hand-side of the split
    pub fn split_at(&self, element: CtxElem) -> (r: (Ctx, Ctx))
        requires
            self@.contains(element@),
        ensures
            (r.0@, r.1@) == ctx_split(self@, element@),
    {
        let index = match self.position(&element) {
            Some(i) => i,
            None => {
                proof {
                    assert(false);
                }
                0
            },
        };
        proof {
            lemma_first_index_unique(self@, element@, index as int);
            self.lemma_view_take_skip(index + 1);
        }
        let (lhs, rhs) = vector_split_at(vector_clone(&self.elements), index + 1);
        let left_context = Ctx { elements: lhs };
        let right_context = Ctx { elements: rhs };
        (left_context, right_context)
    }

    /// Replaces `element` with `inserts`
    pub fn insert_in_place(&self, element: CtxElem, inserts: Vector<CtxElem>) -> (r: Ctx)
        requires
            self@.contains(element@),
            self@.len() + vector_contents(inserts).len() <= usize::MAX + 1,
        ensures
            r@ == ctx_insert(
                self@,
                element@,
                vector_contents(inserts).map_values(|e: CtxElem| e@),
            ),
    {
        let index = match self.position(&element) {
            Some(i) => i,
            None => {
                proof {
                    assert(false);
                }
                0
            },
        };
        proof {
            lemma_first_index_unique(self@, element@, index as int);
            self.lemma_view_take_skip(index as int);
            self.lemma_view_take_skip(index + 1);
        }
        let ghost ins = vector_contents(inserts);
        let (mut lhs, mut rhs) = vector_split_at(vector_clone(&self.elements), index);
        let rest = vector_split_off(&mut rhs, 1);
        vector_append(&mut lhs, inserts);
        vector_append(&mut lhs, rest);
        let r = Ctx { elements: lhs };
        proof {
            let all = vector_contents(self.elements);
            assert(vector_contents(rest) =~= all.skip(index + 1));
            assert(vector_contents(lhs) =~= all.take(index as int) + ins + all.skip(index + 1));
            assert(r@ =~= self@.take(index as int) + ins.map_values(|e: CtxElem| e@) + self@.skip(
                index + 1,
            ));
        }
        r
    }

    /// Drops all elements after `element`
    pub fn drop(&self, element: CtxElem) -> (r: Ctx)
        requires
            self@.contains(element@),
        ensures
            r@ == ctx_drop(self@, element@),
    {
        let index = match self.position(&element) {
            Some(i) => i,
            None => {
                proof {
                    assert(false);
                }
                0
            },
        };
        proof {
            lemma_first_index_unique(self@, element@, index as int);
            self.lemma_view_take_skip(index + 1);
        }
        let mut eles = vector_clone(&self.elements);
        let _ = vector_split_off(&mut eles, index + 1);
        Ctx { elements: eles }
    }

    /// Drops `element` and all elements after it: what remains is the part of
    /// the context before `element`, where the scope that `element` opened
    /// has ended.
    pub fn drop_from(&self, element: CtxElem) -> (r: Ctx)
        requires
            self@.contains(element@),
        ensures
            r@ == ctx_before(self@, element@),
    {
        let index = match self.position(&element) {
            Some(i) => i,
            None => {
                proof {
                    assert(false);
                }
                0
            },
        };
        proof {
            lemma_first_index_unique(self@, element@, index as int);
            self.lemma_view_take_skip(index as int);
        }
        let mut eles = vector_clone(&self.elements);
        let _ = vector_split_off(&mut eles, index);
        Ctx { elements: eles }
    }

    /// Returns `Some(Type)` if `a0` is solved, else `None`
    pub fn get_solved(&self, a0: Name) -> (r: Option<&Type>)
        ensures
            match r {
                Some(t) => solved_in(self@, a0@) == Some(t@),
                None => solved_in(self@, a0@) is None,
            },
    {
        let n = self.len();
        let mut i: usize = 0;
        assert(self@.skip(0) =~= self@);
        while i < n
            invariant
                n == self@.len(),
                i <= n,
                solved_in(self@.skip(i as int), a0@) == solved_in(self@, a0@),
            decreases n - i,
        {
            let elem = self.get(i);
            assert(self@.skip(i as int).drop_first() =~= self@.skip(i + 1));
            assert(self@.skip(i as int)[0] == self@[i as int]);
            if let CtxElem::Solved(a1, t) = elem {
                if names_equal(a0, *a1) {
                    return Some(t);
                }
            }
            i += 1;
        }
        assert(self@.skip(n as int).len() == 0);
        None
    }

    /// Returns `true` if `a` is an existential, else `false`
    pub fn has_existential(&self, a: Name) -> (r: bool)
        ensures
            r == self@.contains(CtxElemV::Exists(a@)),
    {
        self.contains(&CtxElem::Exists(a))
    }

    /// Returns `true` if `a` is a variable, else `false`.
    pub fn has_variable(&self, a: Name) -> (r: bool)
        ensures
            r == self@.contains(CtxElemV::Var(a@)),
    {
        self.contains(&CtxElem::Var(a))
    }

    /// Returns `Some(Type)` if `x` is a type annotation, else `None`
    pub fn get_annotation(&self, x0: Name) -> (r: Option<&Type>)
        ensures
            match r {
                Some(t) => annotation_in(self@, x0@) == Some(t@),
                None => annotation_in(self@, x0@) is None,
            },
    {
        let n = self.len();
        let mut i: usize = 0;
        assert(self@.skip(0) =~= self@);
        while i < n
            invariant
                n == self@.len(),
                i <= n,
                annotation_in(self@.skip(i as int), x0@) == annotation_in(self@, x0@),
            decreases n - i,
        {
            let elem = self.get(i);
            assert(self@.skip(i as int).drop_first() =~= self@.skip(i + 1));
            assert(self@.skip(i as int)[0] == self@[i as int]);
            if let CtxElem::TypedVar(x1, t) = elem {
                if names_equal(x0, *x1) {
                    return Some(t);
                }
            }
            i += 1;
        }
        assert(self@.skip(n as int).len() == 0);
        None
    }
}

/// A vector holding `elems` in order, as the inserts of `Ctx::insert_in_place`.
pub fn vector_of(elems: &Vec<CtxElem>) -> (r: Vector<CtxElem>)
    ensures
        vector_contents(r) == elems@,
{
    let mut v = vector_new();
    let mut i: usize = 0;
    while i < elems.len()
        invariant
            i <= elems@.len(),
            vector_contents(v) == elems@.take(i as int),
        decreases elems@.len() - i,
    {
        vector_push_back(&mut v, elems[i].duplicate());
        assert(elems@.take(i + 1) =~= elems@.take(i as int).push(elems@[i as int]));
        i += 1;
    }
    assert(elems@.take(elems@.len() as int) =~= elems@);
    v
}

fn names_contain(bound: &Vec<Name>, x: Name) -> (r: bool)
    ensures
        r == bound@.map_values(|n: Name| n@).contains(x@),
{
    let ghost bs = bound@.map_values(|n: Name| n@);
    let mut i: usize = 0;
    while i < bound.len()
        invariant
            i <= bound@.len(),
            bs == bound@.map_values(|n: Name| n@),
            forall|j: int| 0 <= j < i ==> bs[j] != x@,
        decreases bound@.len() - i,
    {
        if names_equal(bound[i], x) {
            assert(bs[i as int] == x@);
            return true;
        }
        i += 1;
    }
    false
}

fn wf_under(ctx: &Ctx, bound: &mut Vec<Name>, t: &Type) -> (r: bool)
    ensures
        r == wf_ext(ctx@, old(bound)@.map_values(|n: Name| n@), t@),
        final(bound)@ == old(bound)@,
    decreases t,
{
    match t {
        Type::Lit(_) => true,
        Type::Var(x) => ctx.has_variable(*x) || names_contain(bound, *x),
        Type::Fun(t0, t1) => {
            let r0 = wf_under(ctx, bound, t0);
            let r1 = wf_under(ctx, bound, t1);
            r0 && r1
        },
        Type::Forall(a, t1) => {
            let ghost before = bound@;
            bound.push(*a);
            assert(bound@.map_values(|n: Name| n@) =~= before.map_values(|n: Name| n@).push(a@));
            let r = wf_under(ctx, bound, t1);
            let _ = bound.pop();
            assert(bound@ =~= before);
            r
        },
        Type::Exists(ex) => ctx.has_existential(*ex) || ctx.get_solved(*ex).is_some(),
        Type::Tup(t0, t1) => {
            let r0 = wf_under(ctx, bound, t0);
            let r1 = wf_under(ctx, bound, t1);
            r0 && r1
        },
    }
}

/// Figure 7: whether `t` is well formed in `ctx`.
pub fn is_well_formed(ctx: &Ctx, t: &Type) -> (r: bool)
    ensures
        r == wf(ctx@, t@),
{
    let mut bound: Vec<Name> = Vec::new();
    let r = wf_under(ctx, &mut bound, t);
    proof {
        assert(bound@.map_values(|n: Name| n@) =~= Seq::<NameV>::empty());
        lemma_wf_ext(ctx@, Seq::<NameV>::empty(), t@);
        assert(ctx@ + vars_of(Seq::<NameV>::empty()) =~= ctx@);
    }
    r
}

} // verus!
