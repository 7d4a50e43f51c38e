//! Sets of tile ids and cell indices, held in `bittyset::BitSet`.
use vstd::prelude::*;
use bittyset::BitSet;

verus! {

#[verifier::external_type_specification]
#[verifier::external_body]
#[verifier::reject_recursive_types(T)]
pub struct ExBitSet<T>(BitSet<T>);

/// The elements that a bit set holds.
pub uninterp spec fn members(s: BitSet) -> Set<usize>;

/// Relies on `BitSet::new`: a new set is empty.
#[verifier::external_body]
pub(crate) fn set_empty() -> (r: BitSet)
    ensures
        members(r) == Set::<usize>::empty(),
{
    BitSet::new()
}

/// Relies on `BitSet::insert`: adds one value (it computes `value + 1`).
#[verifier::external_body]
pub(crate) fn set_insert(s: &mut BitSet, v: usize)
    requires
        v < usize::MAX,
    ensures
        members(*final(s)) == members(*old(s)).insert(v),
{
    s.insert(v);
}

/// Relies on `BitSet::remove`: takes one value out.
#[verifier::external_body]
pub(crate) fn set_remove(s: &mut BitSet, v: usize)
    ensures
        members(*final(s)) == members(*old(s)).remove(v),
{
    s.remove(v);
}

/// Relies on `BitSet::contains`: membership of one value.
#[verifier::external_body]
pub(crate) fn set_contains(s: &BitSet, v: usize) -> (r: bool)
    ensures
        r == members(*s).contains(v),
{
    s.contains(v)
}

/// Relies on `BitSet::len`: the number of elements held.
#[verifier::external_body]
pub(crate) fn set_len(s: &BitSet) -> (r: usize)
    ensures
        r == members(*s).len(),
{
    s.len()
}

/// Relies on `BitSet::union`: a new set with the elements of both.
#[verifier::external_body]
pub(crate) fn set_union(a: &BitSet, b: &BitSet) -> (r: BitSet)
    ensures
        members(r) == members(*a).union(members(*b)),
{
    a.union(b)
}

/// Relies on `BitSet::intersection`: a new set with the elements common to both.
#[verifier::external_body]
pub(crate) fn set_intersection(a: &BitSet, b: &BitSet) -> (r: BitSet)
    ensures
        members(r) == members(*a).intersect(members(*b)),
{
    a.intersection(b)
}

/// Relies on the derived `Clone` of `BitSet`: a copy with the same elements.
#[verifier::external_body]
pub(crate) fn set_clone(s: &BitSet) -> (r: BitSet)
    ensures
        members(r) == members(*s),
{
    s.clone()
}

/// Relies on `BitSet::iter`: every element once, in ascending order.
#[verifier::external_body]
pub(crate) fn set_elements(s: &BitSet) -> (r: Vec<usize>)
    ensures
        r@.to_set() == members(*s),
        forall|i: int, j: int| 0 <= i < j < r@.len() ==> r@[i] < r@[j],
{
    s.iter().collect()
}

} // verus!
