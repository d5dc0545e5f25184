//! The key-derivation engine: master-secret preparation, the per-identity
//! hash chain, and the passphrase fingerprint.

use vstd::prelude::*;
use vstd::utf8::encode_utf8;

use crate::bytesutil::push_bytes;
use crate::sha256::{sha256, sha256_of};

verus! {

pub const PREPARED_SKELETON_KEY_SIZE: usize = 32;

/// The fixed public salt hashed together with the master secret to form the
/// fingerprint.  It is distinct from any KDF salt.
pub closed spec fn fingerprint_salt() -> Seq<u8> {
    seq![
        0x15u8, 0x01u8, 0x8Au8, 0x3Eu8, 0x8Eu8, 0x79u8, 0x28u8, 0x71u8,
        0x43u8, 0x70u8, 0xF7u8, 0x51u8, 0x1Cu8, 0x3Bu8, 0xD5u8, 0xCEu8,
        0x85u8, 0x2Bu8, 0x6Fu8, 0x91u8, 0x52u8, 0xC2u8, 0xB9u8, 0xABu8,
        0xDBu8, 0x99u8, 0xAAu8, 0xD7u8, 0x9Fu8, 0xC5u8, 0x51u8, 0x20u8,
    ]
}

fn fingerprint_salt_bytes() -> (r: [u8; 32])
    ensures
        r@ == fingerprint_salt(),
{
    let salt: [u8; 32] = [
        0x15, 0x01, 0x8A, 0x3E, 0x8E, 0x79, 0x28, 0x71, 0x43, 0x70, 0xF7, 0x51, 0x1C,
        0x3B, 0xD5, 0xCE, 0x85, 0x2B, 0x6F, 0x91, 0x52, 0xC2, 0xB9, 0xAB, 0xDB, 0x99,
        0xAA, 0xD7, 0x9F, 0xC5, 0x51, 0x20,
    ];
    proof {
        assert(salt@ =~= fingerprint_salt());
    }
    salt
}

/// The master secret that a passphrase prepares: one unsalted SHA-256 digest
/// of the passphrase's UTF-8 bytes.
pub open spec fn master_secret_of(passphrase: Seq<char>) -> Seq<u8> {
    sha256_of(encode_utf8(passphrase))
}

/// The rolling chain hash after `i` advancement steps for the given master
/// secret, domain and identity.  Only the initial hash depends on domain and
/// identity; every later step hashes the master secret and the previous
/// chain hash alone.
pub open spec fn chain_hash(sk: Seq<u8>, domain: Seq<u8>, identity: Seq<u8>, i: nat) -> Seq<u8>
    decreases i,
{
    if i == 0 {
        sha256_of(sk + domain + identity)
    } else {
        sha256_of(sk + chain_hash(sk, domain, identity, (i - 1) as nat))
    }
}

/// The `i`-th generated key: the first 10 bytes (80 bits) of the `i`-th
/// chain hash.
pub open spec fn nth_key(sk: Seq<u8>, domain: Seq<u8>, identity: Seq<u8>, i: nat) -> Seq<u8> {
    chain_hash(sk, domain, identity, i).take(10)
}

/// Writes the master secret derived from `plain_text` into `prepared_key`.
/// The destination is a 32-byte buffer by type, so the call always succeeds.
pub fn prepare_skeleton_key(plain_text: &str, prepared_key: &mut [u8; 32]) -> (r: Result<(), ()>)
    ensures
        r is Ok,
        final(prepared_key)@ == master_secret_of(plain_text@),
{
    *prepared_key = sha256(plain_text.as_bytes());
    Ok(())
}

/// Owns a prepared master secret and derives everything else from it.
pub struct KeySource {
    sk: [u8; 32],
}

impl KeySource {
    /// The 32-byte master secret this source holds.
    pub closed spec fn master(&self) -> Seq<u8> {
        self.sk@
    }

    pub fn new(key: &str) -> (r: Self)
        ensures
            r.master() == master_secret_of(key@),
    {
        let mut sk: [u8; 32] = [0u8; 32];
        let _ = prepare_skeleton_key(key, &mut sk);
        KeySource { sk }
    }

    pub fn keys(&self, domain: &str, identity: &str) -> (r: KeyIter)
        ensures
            r.wf(),
            r.master() == self.master(),
            r.domain() == encode_utf8(domain@),
            r.identity() == encode_utf8(identity@),
            r.index() == 0,
    {
        KeyIter::new(&self.sk, domain, identity)
    }

    /// The public, non-secret identifier of the passphrase behind this
    /// source: the first 5 bytes of `SHA-256(master || fingerprint salt)`.
    pub fn fingerprint(&self) -> (r: Vec<u8>)
        ensures
            r@ == sha256_of(self.master() + fingerprint_salt()).take(5),
            r@.len() == 5,
    {
        let salt = fingerprint_salt_bytes();
        let mut buf: Vec<u8> = Vec::new();
        push_bytes(&mut buf, self.sk.as_slice());
        push_bytes(&mut buf, salt.as_slice());
        proof {
            assert(buf@ =~= self.master() + fingerprint_salt());
        }
        let digest = sha256(buf.as_slice());
        let mut out: Vec<u8> = Vec::new();
        push_bytes(&mut out, &digest.as_slice()[0..5]);
        proof {
            assert(digest@.subrange(0, 5) =~= sha256_of(self.master() + fingerprint_salt()).take(5));
        }
        out
    }
}

/// Ghost bookkeeping for a `KeyIter`: which chain it walks and how far it
/// has advanced.
pub ghost struct IterCtx {
    pub domain: Seq<u8>,
    pub identity: Seq<u8>,
    pub index: nat,
}

/// A strictly forward iterator over the infinite key sequence of one
/// `(master secret, domain, identity)` triple.  Restart the sequence by
/// constructing a fresh iterator from the same inputs.
pub struct KeyIter {
    sk: [u8; 32],
    hash: [u8; 32],
    ctx: Ghost<IterCtx>,
}

impl KeyIter {
    pub closed spec fn master(&self) -> Seq<u8> {
        self.sk@
    }

    pub closed spec fn domain(&self) -> Seq<u8> {
        self.ctx@.domain
    }

    pub closed spec fn identity(&self) -> Seq<u8> {
        self.ctx@.identity
    }

    /// How many keys have been produced so far.
    pub closed spec fn index(&self) -> nat {
        self.ctx@.index
    }

    /// The running hash is exactly the chain hash that `index` steps reach.
    pub closed spec fn wf(&self) -> bool {
        self.hash@ == chain_hash(self.sk@, self.ctx@.domain, self.ctx@.identity, self.ctx@.index)
    }

    pub fn new(sk: &[u8; 32], domain: &str, identity: &str) -> (r: Self)
        ensures
            r.wf(),
            r.master() == sk@,
            r.domain() == encode_utf8(domain@),
            r.identity() == encode_utf8(identity@),
            r.index() == 0,
    {
        let mut buf: Vec<u8> = Vec::new();
        push_bytes(&mut buf, sk.as_slice());
        push_bytes(&mut buf, domain.as_bytes());
        push_bytes(&mut buf, identity.as_bytes());
        let hash = sha256(buf.as_slice());
        KeyIter {
            sk: *sk,
            hash,
            ctx: Ghost(
                IterCtx {
                    domain: encode_utf8(domain@),
                    identity: encode_utf8(identity@),
                    index: 0,
                },
            ),
        }
    }

    /// Emits the next 10-byte key and advances the chain hash by one step.
    /// The sequence is infinite, so the result is always `Some`.
    pub fn next(&mut self) -> (r: Option<Vec<u8>>)
        requires
            old(self).wf(),
        ensures
            final(self).wf(),
            final(self).master() == old(self).master(),
            final(self).domain() == old(self).domain(),
            final(self).identity() == old(self).identity(),
            final(self).index() == old(self).index() + 1,
            r matches Some(k) && k@ == nth_key(
                old(self).master(),
                old(self).domain(),
                old(self).identity(),
                old(self).index(),
            ),
    {
        let mut item: Vec<u8> = Vec::new();
        push_bytes(&mut item, &self.hash.as_slice()[0..10]);
        proof {
            assert(self.hash@.subrange(0, 10) =~= self.hash@.take(10));
        }
        let mut buf: Vec<u8> = Vec::new();
        push_bytes(&mut buf, self.sk.as_slice());
        push_bytes(&mut buf, self.hash.as_slice());
        proof {
            assert(buf@ =~= self.sk@ + self.hash@);
        }
        self.hash = sha256(buf.as_slice());
        proof {
            self.ctx@ = IterCtx { index: self.ctx@.index + 1, ..self.ctx@ };
        }
        Some(item)
    }
}

/// Preparing a master secret is a pure function of the passphrase: any two
/// results prepared from the same passphrase are the same 32 bytes.
pub proof fn lemma_master_secret_deterministic(p: Seq<char>, k1: Seq<u8>, k2: Seq<u8>)
    requires
        k1 == master_secret_of(p),
        k2 == master_secret_of(p),
    ensures
        k1 == k2,
{
}

/// The key sequence is restartable: any two well-formed iterators over the
/// same master secret, domain and identity yield, at every position, the
/// same key.
pub proof fn lemma_keys_restartable(it1: KeyIter, it2: KeyIter, j: nat)
    requires
        it1.master() == it2.master(),
        it1.domain() == it2.domain(),
        it1.identity() == it2.identity(),
    ensures
        nth_key(it1.master(), it1.domain(), it1.identity(), j) == nth_key(
            it2.master(),
            it2.domain(),
            it2.identity(),
            j,
        ),
{
}

/// Domain and identity enter the chain only through the initial hash: if two
/// chains over the same master secret agree on their initial hash, they
/// agree everywhere, whatever their domains and identities.
pub proof fn lemma_chain_depends_only_on_first_hash(
    sk: Seq<u8>,
    d1: Seq<u8>,
    i1: Seq<u8>,
    d2: Seq<u8>,
    i2: Seq<u8>,
    n: nat,
)
    requires
        chain_hash(sk, d1, i1, 0) == chain_hash(sk, d2, i2, 0),
    ensures
        chain_hash(sk, d1, i1, n) == chain_hash(sk, d2, i2, n),
    decreases n,
{
    if n > 0 {
        lemma_chain_depends_only_on_first_hash(sk, d1, i1, d2, i2, (n - 1) as nat);
    }
}

} // verus!
