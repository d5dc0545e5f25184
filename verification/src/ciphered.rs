//! The authenticated envelope: algorithm-tagged, nonce-bearing ciphertext
//! wrapping a serialized plaintext.

use vstd::prelude::*;

use crate::aead::{aes256_gcm_decrypt, aes256_gcm_encrypt, aes256_gcm_open};
use crate::random::random_bytes_12;

verus! {

#[derive(Debug)]
pub enum Error {
    CipherOpFailed,
}

/// The cipher an envelope was sealed with.  Only AES-GCM-256 is in use;
/// the tag is persisted so the format can grow backwards compatibly.
#[derive(Clone, Copy, PartialEq, Eq, Structural)]
pub enum CipherAlgorithm {
    AesGcm256,
}

/// One sealed envelope: the algorithm tag, the fresh 12-byte nonce it was
/// sealed with, and the opaque ciphertext bytes.
pub struct Ciphered {
    alg: CipherAlgorithm,
    nonce: [u8; 12],
    ciphered: Vec<u8>,
}

impl Ciphered {
    pub closed spec fn alg_spec(&self) -> CipherAlgorithm {
        self.alg
    }

    pub closed spec fn nonce_spec(&self) -> Seq<u8> {
        self.nonce@
    }

    pub closed spec fn ciphertext_spec(&self) -> Seq<u8> {
        self.ciphered@
    }

    /// What deciphering this envelope under a key returns: the plaintext
    /// it seals for that key, or nothing.
    pub open spec fn opens_to(&self, key: Seq<u8>) -> Option<Seq<u8>> {
        aes256_gcm_open(key, self.nonce_spec(), self.ciphertext_spec())
    }

    /// Seals `plain` under `key` with a freshly random nonce.  A fresh
    /// nonce on every call is what keeps nonces from ever repeating for a
    /// given key.
    pub fn cipher(plain: &[u8], key: &[u8; 32]) -> (r: Result<Ciphered, Error>)
        requires
            plain@.len() <= 0x1000000000,
        ensures
            r matches Ok(c) ==> c.opens_to(key@) == Some(plain@),
            r matches Ok(c) ==> c.alg_spec() == CipherAlgorithm::AesGcm256,
            r is Ok,
    {
        let nonce = random_bytes_12();
        match aes256_gcm_encrypt(key, &nonce, plain) {
            Ok(ciphered) => Ok(Ciphered { alg: CipherAlgorithm::AesGcm256, nonce, ciphered }),
            Err(()) => Err(Error::CipherOpFailed),
        }
    }

    /// Opens the envelope under `key` using the stored nonce.  Failure to
    /// authenticate and a corrupt envelope collapse into the one opaque
    /// error: a caller cannot tell a wrong key from tampered data.
    pub fn decipher(&self, key: &[u8; 32]) -> (r: Result<Vec<u8>, Error>)
        ensures
            r matches Ok(p) ==> self.opens_to(key@) == Some(p@),
            r is Err ==> self.opens_to(key@) is None,
            r is Ok <==> self.opens_to(key@) is Some,
    {
        match aes256_gcm_decrypt(key, &self.nonce, self.ciphered.as_slice()) {
            Ok(p) => Ok(p),
            Err(()) => Err(Error::CipherOpFailed),
        }
    }

    /// Rebuilds an envelope from its persisted parts.
    pub fn from_parts(alg: CipherAlgorithm, nonce: [u8; 12], ciphered: Vec<u8>) -> (r: Ciphered)
        ensures
            r.alg_spec() == alg,
            r.nonce_spec() == nonce@,
            r.ciphertext_spec() == ciphered@,
    {
        Ciphered { alg, nonce, ciphered }
    }

    /// The persisted parts of the envelope: algorithm tag, nonce and
    /// ciphertext bytes.
    pub fn parts(&self) -> (r: (CipherAlgorithm, &[u8; 12], &Vec<u8>))
        ensures
            r.0 == self.alg_spec(),
            r.1@ == self.nonce_spec(),
            r.2@ == self.ciphertext_spec(),
    {
        (self.alg, &self.nonce, &self.ciphered)
    }
}

} // verus!
