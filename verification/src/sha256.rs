//! The one cryptographic hash that every derivation in this library uses.

use vstd::prelude::*;

verus! {

/// The SHA-256 digest of a byte sequence.  The digest is a function of the
/// input bytes alone, so it gets a name rather than a definition; every
/// contract in the key-derivation engine is phrased over this name.
pub uninterp spec fn sha256_of(input: Seq<u8>) -> Seq<u8>;

/// Relies on `hmac_sha256::Hash::hash`: computes the SHA-256 digest of the
/// whole input in one call; the result depends on the input bytes alone and
/// is always 32 bytes long.
#[verifier::external_body]
pub(crate) fn sha256(input: &[u8]) -> (r: [u8; 32])
    ensures
        r@ == sha256_of(input@),
        r@.len() == 32,
{
    hmac_sha256::Hash::hash(input)
}

} // verus!
