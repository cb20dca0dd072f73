//! Sets of rows in the standard Roaring form.
use vstd::prelude::*;
use crate::bitmap::lists;

verus! {

/// `roaring::RoaringBitmap`.
#[verifier::external_type_specification]
#[verifier::external_body]
pub struct ExRoaringBitmap(roaring::RoaringBitmap);

/// The numbers that a bitmap holds.
pub uninterp spec fn roaring_rows(b: roaring::RoaringBitmap) -> Set<u32>;

/// The numbers that bytes hold in the standard Roaring form, if they are of that
/// form.
pub uninterp spec fn roaring_stored(bytes: Seq<u8>) -> Option<Set<u32>>;

/// `RoaringBitmap::new`: no numbers.
#[verifier::external_body]
pub(crate) fn roaring_new() -> (b: roaring::RoaringBitmap)
    ensures
        roaring_rows(b) == Set::<u32>::empty(),
{
    roaring::RoaringBitmap::new()
}

/// `RoaringBitmap::insert`: puts one number in.
#[verifier::external_body]
pub(crate) fn roaring_insert(b: &mut roaring::RoaringBitmap, value: u32)
    ensures
        roaring_rows(*final(b)) == roaring_rows(*old(b)).insert(value),
{
    b.insert(value);
}

/// `RoaringBitmap::contains`: whether a number is in.
#[verifier::external_body]
pub(crate) fn roaring_contains(b: &roaring::RoaringBitmap, value: u32) -> (r: bool)
    ensures
        r == roaring_rows(*b).contains(value),
{
    b.contains(value)
}

/// `RoaringBitmap::iter`: the numbers, in ascending order.
#[verifier::external_body]
pub(crate) fn roaring_list(b: &roaring::RoaringBitmap) -> (rows: Vec<u32>)
    ensures
        lists(rows@, roaring_rows(*b)),
{
    b.iter().collect()
}

/// `RoaringBitmap::serialize_into` a vector, which takes all bytes: bytes from
/// which the same numbers are read back.
#[verifier::external_body]
pub(crate) fn roaring_write(b: &roaring::RoaringBitmap) -> (bytes: Vec<u8>)
    ensures
        roaring_stored(bytes@) == Some(roaring_rows(*b)),
{
    let mut bytes = Vec::new();
    b.serialize_into(&mut bytes).ok();
    bytes
}

/// `RoaringBitmap::deserialize_from` bytes.
#[verifier::external_body]
pub(crate) fn roaring_read(bytes: &[u8]) -> (r: Option<roaring::RoaringBitmap>)
    ensures
        match r {
            Some(b) => roaring_stored(bytes@) == Some(roaring_rows(b)),
            None => roaring_stored(bytes@) is None,
        },
{
    roaring::RoaringBitmap::deserialize_from(bytes).ok()
}

} // verus!
