//! The hashing primitive: Keccak-256 over byte strings. The digest is a
//! pure function of its input, named here and computed by an outside
//! implementation.

use vstd::prelude::*;
use sha3::Digest;

verus! {

/// The Keccak-256 digest of a byte string: a function of the bytes alone.
pub uninterp spec fn keccak256_of(data: Seq<u8>) -> Seq<u8>;

/// Relies on sha3::Keccak256 through the Digest trait: the digest depends
/// only on the input bytes and is 32 bytes long.
#[verifier::external_body]
pub fn keccak256(data: &[u8]) -> (r: Vec<u8>)
    ensures
        r@ == keccak256_of(data@),
        r@.len() == 32,
{
    sha3::Keccak256::digest(data).to_vec()
}

} // verus!
