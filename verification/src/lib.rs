//! Deterministic per-site key derivation with an encrypted local ledger.
//!
//! From one master passphrase and a (domain, identity) pair the library
//! reproducibly derives an unbounded sequence of strong per-site keys, never
//! storing the generated keys themselves.  A short fingerprint lets a caller
//! recognise a previously used passphrase without persisting it, and a small
//! credential ledger is kept encrypted under a key derived from the same
//! passphrase by a memory-hard KDF.

use vstd::prelude::*;

pub mod aead;
pub mod b64;
pub mod base32;
pub mod bytesutil;
pub mod canonical;
pub mod ciphered;
pub mod complete;
pub mod jsontext;
pub mod kdf;
pub mod keys;
pub mod random;
pub mod strutil;
pub mod sha256;
pub mod state;
pub mod storejson;
pub mod types;

use crate::canonical::{format_key, spec_canonical};
use crate::base32::{spec_crockford, spec_encode};
use crate::keys::{KeySource, fingerprint_salt, master_secret_of};
use crate::sha256::sha256_of;
use crate::strutil::ascii_chars_of;

verus! {

/// The display form of a passphrase's fingerprint: the 5 fingerprint
/// bytes, packed, mapped to the display alphabet and grouped by eight.
pub open spec fn fingerprint_display_of(passphrase: Seq<char>) -> Seq<char> {
    spec_canonical(
        ascii_chars_of(
            spec_crockford(
                spec_encode(
                    sha256_of(master_secret_of(passphrase) + fingerprint_salt()).take(5),
                ),
            ),
        ),
        8,
    )
}

/// The public, non-secret display identifier of a passphrase, used to
/// recognise it across runs and to name its state file.
pub fn compute_fingerprint(passphrase: &str) -> (r: String)
    ensures
        r@ == fingerprint_display_of(passphrase@),
{
    let key_source = KeySource::new(passphrase);
    let fp = key_source.fingerprint();
    format_key(fp.as_slice(), 8)
}

/// A recognized passphrase together with its decrypted state.
pub struct KeyContainer {
    skeleton_key: types::Passphrase,
    pub state: state::KeyState,
}

impl KeyContainer {
    /// The passphrase this container was opened with.
    pub closed spec fn passphrase(&self) -> Seq<char> {
        self.skeleton_key@
    }

    /// The contained state.
    pub closed spec fn state_of(&self) -> state::KeyState {
        self.state
    }

    pub fn new(skeleton_key: types::Passphrase, state: state::KeyState) -> (r: Self)
        ensures
            r.passphrase() == skeleton_key@,
            r.state_of() == state,
    {
        Self { skeleton_key, state }
    }

    /// A fresh key source for the contained passphrase.
    pub fn key_source(&self) -> (r: KeySource)
        ensures
            r.master() == master_secret_of(self.passphrase()),
    {
        KeySource::new(self.skeleton_key.as_str())
    }
}

} // verus!
