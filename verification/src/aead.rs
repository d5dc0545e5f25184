//! The authenticated cipher behind the envelope: AES-GCM with a 256-bit
//! key and a 12-byte nonce.

use aes_gcm::aead::Aead;
use aes_gcm::KeyInit;
use vstd::prelude::*;

verus! {

/// What authenticated decryption returns for a given key, nonce and
/// ciphertext: the plaintext the ciphertext seals, or nothing when the
/// ciphertext does not authenticate.  Decryption is a function of these
/// three arguments alone.
pub uninterp spec fn aes256_gcm_open(key: Seq<u8>, nonce: Seq<u8>, ct: Seq<u8>) -> Option<Seq<u8>>;

/// What authenticated encryption returns for a given key, nonce and
/// plaintext; a function of these three arguments alone.
pub uninterp spec fn aes256_gcm_seal(key: Seq<u8>, nonce: Seq<u8>, pt: Seq<u8>) -> Seq<u8>;

/// Relies on `aes_gcm::Aes256Gcm::encrypt`: authenticated encryption always
/// succeeds for plaintexts under the GCM length bound, its output depends
/// on key, nonce and plaintext alone, and decrypting that output with the
/// same key and nonce returns exactly the plaintext.
#[verifier::external_body]
pub(crate) fn aes256_gcm_encrypt(key: &[u8; 32], nonce: &[u8; 12], pt: &[u8]) -> (r: Result<
    Vec<u8>,
    (),
>)
    requires
        pt@.len() <= 0x1000000000,
    ensures
        r matches Ok(c) ==> c@ == aes256_gcm_seal(key@, nonce@, pt@),
        r matches Ok(c) ==> aes256_gcm_open(key@, nonce@, c@) == Some(pt@),
        r is Ok,
{
    let cipher = aes_gcm::Aes256Gcm::new(aes_gcm::Key::<aes_gcm::Aes256Gcm>::from_slice(key));
    cipher.encrypt(aes_gcm::Nonce::from_slice(nonce), pt).map_err(|_| ())
}

/// Relies on `aes_gcm::Aes256Gcm::decrypt`: authenticated decryption is a
/// function of key, nonce and ciphertext; it returns the sealed plaintext
/// or fails when the ciphertext does not authenticate under that key and
/// nonce.
#[verifier::external_body]
pub(crate) fn aes256_gcm_decrypt(key: &[u8; 32], nonce: &[u8; 12], ct: &[u8]) -> (r: Result<
    Vec<u8>,
    (),
>)
    ensures
        r matches Ok(p) ==> aes256_gcm_open(key@, nonce@, ct@) == Some(p@),
        r is Err ==> aes256_gcm_open(key@, nonce@, ct@) is None,
{
    let cipher = aes_gcm::Aes256Gcm::new(aes_gcm::Key::<aes_gcm::Aes256Gcm>::from_slice(key));
    cipher.decrypt(aes_gcm::Nonce::from_slice(nonce), ct).map_err(|_| ())
}

} // verus!
