use vstd::prelude::*;

verus! {

/// `roaring::RoaringBitmap`, declared so that bitmap values can flow through
/// verified code. A bitmap is read as the set of row ordinals it holds.
#[verifier::external_type_specification]
#[verifier::external_body]
pub struct ExRoaringBitmap(roaring::RoaringBitmap);

/// The set of row ordinals a `roaring::RoaringBitmap` holds.
pub uninterp spec fn bitmap_rows(b: roaring::RoaringBitmap) -> Set<u32>;

/// Relies on `roaring::RoaringBitmap::new`: a fresh bitmap holds no value.
#[verifier::external_body]
pub fn bm_new() -> (r: roaring::RoaringBitmap)
    ensures
        bitmap_rows(r) == Set::<u32>::empty(),
        bitmap_rows(r).finite(),
{
    roaring::RoaringBitmap::new()
}

/// Relies on `roaring::RoaringBitmap::clone`: the copy holds the same values.
pub assume_specification[ <roaring::RoaringBitmap as Clone>::clone ](
    b: &roaring::RoaringBitmap,
) -> (r: roaring::RoaringBitmap)
    ensures
        bitmap_rows(r) == bitmap_rows(*b),
        bitmap_rows(r).finite(),
;

/// Relies on `roaring::RoaringBitmap`'s `BitAnd`: the result holds the values
/// present in both operands.
#[verifier::external_body]
pub fn bm_and(a: &roaring::RoaringBitmap, b: &roaring::RoaringBitmap) -> (r: roaring::RoaringBitmap)
    ensures
        bitmap_rows(r) == bitmap_rows(*a).intersect(bitmap_rows(*b)),
        bitmap_rows(r).finite(),
{
    a & b
}

/// Relies on `roaring::RoaringBitmap`'s `BitOr`: the result holds the values
/// present in either operand.
#[verifier::external_body]
pub fn bm_or(a: &roaring::RoaringBitmap, b: &roaring::RoaringBitmap) -> (r: roaring::RoaringBitmap)
    ensures
        bitmap_rows(r) == bitmap_rows(*a).union(bitmap_rows(*b)),
        bitmap_rows(r).finite(),
{
    a | b
}

/// Relies on `roaring::RoaringBitmap`'s `Sub`: the result holds the values of
/// the left operand that the right operand lacks.
#[verifier::external_body]
pub fn bm_sub(a: &roaring::RoaringBitmap, b: &roaring::RoaringBitmap) -> (r: roaring::RoaringBitmap)
    ensures
        bitmap_rows(r) == bitmap_rows(*a).difference(bitmap_rows(*b)),
        bitmap_rows(r).finite(),
{
    a - b
}

/// Relies on `roaring::RoaringBitmap::is_empty`: true exactly when the bitmap
/// holds no value.
#[verifier::external_body]
pub fn bm_is_empty(b: &roaring::RoaringBitmap) -> (r: bool)
    ensures
        r == (bitmap_rows(*b) == Set::<u32>::empty()),
{
    b.is_empty()
}

} // verus!
