//! Fresh randomness for salts and nonces.

use vstd::prelude::*;

verus! {

/// Relies on `rand_core::OsRng::fill_bytes` (the operating system's
/// cryptographically secure generator): fills the buffer with random bytes.
/// Nothing can be promised of the values.
#[verifier::external_body]
pub(crate) fn random_bytes_32() -> (r: [u8; 32]) {
    let mut buf = [0u8; 32];
    rand_core::RngCore::fill_bytes(&mut rand_core::OsRng, &mut buf);
    buf
}

/// Relies on `rand_core::OsRng::fill_bytes`, as `random_bytes_32` does, for
/// the 12-byte nonce size.
#[verifier::external_body]
pub(crate) fn random_bytes_12() -> (r: [u8; 12]) {
    let mut buf = [0u8; 12];
    rand_core::RngCore::fill_bytes(&mut rand_core::OsRng, &mut buf);
    buf
}

} // verus!
