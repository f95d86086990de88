//! The digest primitive: SHA-256, taken from the `sha2` crate as a black box.

use vstd::prelude::*;

verus! {

/// The SHA-256 digest of a byte sequence — named, never spelled out: only
/// the trusted wrapper below speaks for it.
pub uninterp spec fn sha256_of(bytes: Seq<u8>) -> Seq<u8>;

/// Relies on `sha2::Sha256` (via the `Digest` trait): the SHA-256 digest of a
/// byte string, a pure function of the bytes alone, always 32 bytes long.
#[verifier::external_body]
pub(crate) fn sha256(bytes: &Vec<u8>) -> (r: [u8; 32])
    ensures
        r@ == sha256_of(bytes@),
{
    <sha2::Sha256 as sha2::Digest>::digest(bytes.as_slice()).into()
}

} // verus!
