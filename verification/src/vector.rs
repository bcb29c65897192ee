//! The persistent vector of `im_rc` that holds a typing context, with the
//! contracts of the methods the context uses.
use vstd::prelude::*;
use im_rc::Vector;
use crate::context::CtxElem;

verus! {

#[verifier::external_type_specification]
#[verifier::external_body]
#[verifier::reject_recursive_types(A)]
pub struct ExVector<A>(Vector<A>);

/// The elements of an `im_rc::Vector`, front to back.
pub uninterp spec fn vector_contents(v: Vector<CtxElem>) -> Seq<CtxElem>;

/// `Vector::new`: an empty vector.
#[verifier::external_body]
pub(crate) fn vector_new() -> (v: Vector<CtxElem>)
    ensures
        vector_contents(v) == Seq::<CtxElem>::empty(),
{
    Vector::new()
}

/// `Vector::clone`: a vector with the same elements (each cloned by the
/// derived `Clone` of `CtxElem`, which copies it field by field).
#[verifier::external_body]
pub(crate) fn vector_clone(v: &Vector<CtxElem>) -> (r: Vector<CtxElem>)
    ensures
        vector_contents(r) == vector_contents(*v),
{
    v.clone()
}

/// `Vector::len`: the number of elements.
#[verifier::external_body]
pub(crate) fn vector_len(v: &Vector<CtxElem>) -> (r: usize)
    ensures
        r == vector_contents(*v).len(),
{
    v.len()
}

/// `Index::index` of `Vector`: the element at position `i` (it panics out of
/// bounds, which `requires` excludes).
#[verifier::external_body]
pub(crate) fn vector_index(v: &Vector<CtxElem>, i: usize) -> (r: &CtxElem)
    requires
        i < vector_contents(*v).len(),
    ensures
        *r == vector_contents(*v)[i as int],
{
    &v[i]
}

/// `Vector::push_back`: appends one element at the back. Its length counter
/// cannot pass `usize::MAX`, which `requires` keeps it below.
#[verifier::external_body]
pub(crate) fn vector_push_back(v: &mut Vector<CtxElem>, e: CtxElem)
    requires
        vector_contents(*old(v)).len() < usize::MAX,
    ensures
        vector_contents(*final(v)) == vector_contents(*old(v)).push(e),
{
    v.push_back(e)
}

/// `Vector::split_at`: the elements before `index` and those from `index` on
/// (it asserts `index <= len`, which `requires` keeps).
#[verifier::external_body]
pub(crate) fn vector_split_at(v: Vector<CtxElem>, index: usize) -> (r: (Vector<CtxElem>, Vector<CtxElem>))
    requires
        index <= vector_contents(v).len(),
    ensures
        vector_contents(r.0) == vector_contents(v).take(index as int),
        vector_contents(r.1) == vector_contents(v).skip(index as int),
{
    v.split_at(index)
}

/// `Vector::split_off`: keeps the elements before `index` and returns the rest
/// (it asserts `index <= len`, which `requires` keeps).
#[verifier::external_body]
pub(crate) fn vector_split_off(v: &mut Vector<CtxElem>, index: usize) -> (r: Vector<CtxElem>)
    requires
        index <= vector_contents(*old(v)).len(),
    ensures
        vector_contents(*final(v)) == vector_contents(*old(v)).take(index as int),
        vector_contents(r) == vector_contents(*old(v)).skip(index as int),
{
    v.split_off(index)
}

/// `Vector::append`: the elements of `other` after those of `v` (it panics when
/// the total length overflows, which `requires` excludes).
#[verifier::external_body]
pub(crate) fn vector_append(v: &mut Vector<CtxElem>, other: Vector<CtxElem>)
    requires
        vector_contents(*old(v)).len() + vector_contents(other).len() <= usize::MAX,
    ensures
        vector_contents(*final(v)) == vector_contents(*old(v)) + vector_contents(other),
{
    v.append(other)
}

} // verus!
