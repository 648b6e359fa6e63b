//! Trusted boundary around `im::Vector`, the persistent vector that backs
//! order box lists and vehicle load lists. Cloning an `im::Vector` is cheap
//! structural sharing, which is what makes plan snapshots inexpensive.
//!
//! Verus sees the vector only through the two model functions and the
//! wrappers below; every wrapper's contract states what the corresponding
//! `im::Vector` method does to the modelled contents.

use vstd::prelude::*;

verus! {

#[verifier::external_type_specification]
#[verifier::external_body]
#[verifier::reject_recursive_types(A)]
pub struct ExVector<A>(im::Vector<A>);

/// The box weights held by an `im` vector, in order.
pub uninterp spec fn weights_model(v: im::Vector<u64>) -> Seq<u64>;

/// The (order id, weight) pairs held by an `im` vector of loaded boxes, in
/// order; the id is taken as its character sequence.
pub uninterp spec fn items_model(v: im::Vector<(String, u64)>) -> Seq<(Seq<char>, u64)>;

/// Relies on im::Vector::new: returns an empty vector.
#[verifier::external_body]
pub(crate) fn weights_new() -> (r: im::Vector<u64>)
    ensures
        weights_model(r) == Seq::<u64>::empty(),
{
    im::Vector::new()
}

/// Relies on im::Vector::push_back: appends one element at the back.
#[verifier::external_body]
pub(crate) fn weights_push(v: &mut im::Vector<u64>, w: u64)
    ensures
        weights_model(*final(v)) == weights_model(*old(v)).push(w),
{
    v.push_back(w)
}

/// Relies on im::Vector::len: the number of elements held.
#[verifier::external_body]
pub(crate) fn weights_len(v: &im::Vector<u64>) -> (n: usize)
    ensures
        n == weights_model(*v).len(),
{
    v.len()
}

/// Relies on im::Vector::get: returns Some(&element) for every index below
/// the length, so the unwrap cannot fail.
#[verifier::external_body]
pub(crate) fn weight_at(v: &im::Vector<u64>, i: usize) -> (w: u64)
    requires
        i < weights_model(*v).len(),
    ensures
        w == weights_model(*v)[i as int],
{
    *v.get(i).unwrap()
}

/// Relies on im::Vector::new: returns an empty vector.
#[verifier::external_body]
pub(crate) fn items_new() -> (r: im::Vector<(String, u64)>)
    ensures
        items_model(r) == Seq::<(Seq<char>, u64)>::empty(),
{
    im::Vector::new()
}

/// Relies on im::Vector::push_back: appends one element at the back.
#[verifier::external_body]
pub(crate) fn items_push(v: &mut im::Vector<(String, u64)>, id: String, w: u64)
    ensures
        items_model(*final(v)) == items_model(*old(v)).push((id@, w)),
{
    v.push_back((id, w))
}

/// Relies on im::Vector::len: the number of elements held.
#[verifier::external_body]
pub(crate) fn items_len(v: &im::Vector<(String, u64)>) -> (n: usize)
    ensures
        n == items_model(*v).len(),
{
    v.len()
}

/// Relies on im::Vector::get: returns Some(&element) for every index below
/// the length, so the unwrap cannot fail.
#[verifier::external_body]
pub(crate) fn item_at(v: &im::Vector<(String, u64)>, i: usize) -> (p: (String, u64))
    requires
        i < items_model(*v).len(),
    ensures
        (p.0@, p.1) == items_model(*v)[i as int],
{
    v.get(i).unwrap().clone()
}

/// Relies on im::Vector::clone: an O(1) structurally shared copy with the
/// same contents.
#[verifier::external_body]
pub(crate) fn items_dup(v: &im::Vector<(String, u64)>) -> (r: im::Vector<(String, u64)>)
    ensures
        items_model(r) == items_model(*v),
{
    v.clone()
}

} // verus!
