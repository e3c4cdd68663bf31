//! Trusted interface to the compressed 64-bit bitmaps of the `roaring`
//! crate. The bitmaps hold feature-id membership sets; everything the
//! verified code knows of them is stated here over their member sets.

use vstd::prelude::*;

use roaring::RoaringTreemap;

verus! {

#[verifier::external_type_specification]
#[verifier::external_body]
pub struct ExRoaringTreemap(RoaringTreemap);

/// The member set of a compressed bitmap.
pub uninterp spec fn treemap_contents(t: RoaringTreemap) -> Set<u64>;

/// What `RoaringTreemap::deserialize_from` yields on a byte sequence: the
/// member set it decodes, or nothing when the bytes do not begin with a
/// valid serialized bitmap. Deserialization reads bytes alone, so the
/// outcome is a function of them.
pub uninterp spec fn treemap_of_bytes(b: Seq<u8>) -> Option<Set<u64>>;

/// Relies on `RoaringTreemap::new`: the new bitmap is empty.
#[verifier::external_body]
pub fn treemap_new() -> (r: RoaringTreemap)
    ensures
        treemap_contents(r) == Set::<u64>::empty(),
{
    RoaringTreemap::new()
}

/// Relies on `RoaringTreemap::serialize_into`, which cannot fail writing to
/// a `Vec`, and on `deserialize_from` recovering exactly the member set that
/// was serialized.
#[verifier::external_body]
pub fn treemap_serialize(t: &RoaringTreemap) -> (r: Vec<u8>)
    ensures
        treemap_of_bytes(r@) == Some(treemap_contents(*t)),
{
    let mut out: Vec<u8> = Vec::new();
    let _ = t.serialize_into(&mut out);
    out
}

/// Relies on `RoaringTreemap::deserialize_from`; a failure is reported as
/// `None`. An in-memory bitmap always holds finitely many members.
#[verifier::external_body]
pub fn treemap_deserialize(bytes: &Vec<u8>) -> (r: Option<RoaringTreemap>)
    ensures
        match treemap_of_bytes(bytes@) {
            Some(s) => r is Some && treemap_contents(r.unwrap()) == s && s.finite(),
            None => r is None,
        },
{
    match RoaringTreemap::deserialize_from(&bytes[..]) {
        Ok(t) => Some(t),
        Err(_) => None,
    }
}

} // verus!
