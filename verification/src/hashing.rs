//! Content hashing. Node identity and code identity are the Keccak-256
//! digest of the content, supplied by the `keccak-hash` crate.

use vstd::prelude::*;

use crate::bytes::Hash256;

verus! {

/// The 32-byte Keccak-256 digest of a byte string: a function of the
/// bytes alone.
pub uninterp spec fn keccak_of(data: Seq<u8>) -> Seq<u8>;

/// Relies on keccak_hash::keccak: the Keccak-256 digest of the input,
/// always 32 bytes, depending on the input bytes alone.
#[verifier::external_body]
pub fn keccak256(data: &Vec<u8>) -> (r: Hash256)
    ensures
        r@ == keccak_of(data@),
        r@.len() == 32,
{
    let digest = keccak_hash::keccak(data.as_slice());
    Hash256 { bytes: digest.as_bytes().to_vec() }
}

} // verus!
