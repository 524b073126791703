//! Sets of documents.
use vstd::prelude::*;

verus! {

/// A compressed set of 32-bit numbers.
#[verifier::external_type_specification]
#[verifier::external_body]
pub struct ExRoaringBitmap(roaring::RoaringBitmap);

/// The numbers that a bitmap holds.
pub uninterp spec fn docs(b: roaring::RoaringBitmap) -> Set<u32>;

/// `RoaringBitmap::new` gives the empty set.
#[verifier::external_body]
pub(crate) fn empty_set() -> (r: roaring::RoaringBitmap)
    ensures
        docs(r) == Set::<u32>::empty(),
{
    roaring::RoaringBitmap::new()
}

/// `RoaringBitmap::insert` adds a number.
#[verifier::external_body]
pub(crate) fn add_to_set(b: &mut roaring::RoaringBitmap, v: u32)
    ensures
        docs(*final(b)) == docs(*old(b)).insert(v),
{
    b.insert(v);
}

/// The operator `&=` of `RoaringBitmap` keeps the numbers that are in both sets.
#[verifier::external_body]
pub(crate) fn intersect_with(a: &mut roaring::RoaringBitmap, b: &roaring::RoaringBitmap)
    ensures
        docs(*final(a)) == docs(*old(a)).intersect(docs(*b)),
{
    *a &= b;
}

/// The operator `|=` of `RoaringBitmap` adds the numbers of another set.
#[verifier::external_body]
pub(crate) fn unite_with(a: &mut roaring::RoaringBitmap, b: &roaring::RoaringBitmap)
    ensures
        docs(*final(a)) == docs(*old(a)).union(docs(*b)),
{
    *a |= b;
}

/// The operator `-=` of `RoaringBitmap` takes the numbers of another set away.
#[verifier::external_body]
pub(crate) fn subtract_from(a: &mut roaring::RoaringBitmap, b: &roaring::RoaringBitmap)
    ensures
        docs(*final(a)) == docs(*old(a)).difference(docs(*b)),
{
    *a -= b;
}

/// `RoaringBitmap::is_empty` tells whether the set has no number.
#[verifier::external_body]
pub(crate) fn set_is_empty(b: &roaring::RoaringBitmap) -> (r: bool)
    ensures
        r == (docs(*b) == Set::<u32>::empty()),
{
    b.is_empty()
}

/// Whether a list is in strictly ascending order.
pub open spec fn ascending(v: Seq<u32>) -> bool {
    forall|i: int, j: int| 0 <= i < j < v.len() ==> v[i] < v[j]
}

/// `RoaringBitmap::iter` goes through the numbers of the set in ascending order.
#[verifier::external_body]
pub(crate) fn list_of_set(b: &roaring::RoaringBitmap) -> (r: Vec<u32>)
    ensures
        ascending(r@),
        forall|v: u32| #[trigger] r@.contains(v) <==> docs(*b).contains(v),
{
    b.iter().collect()
}

} // verus!
