//! The key-protection KDF: a memory-hard, parameterized derivation that
//! turns the passphrase into the 32-byte key protecting local state.

use vstd::prelude::*;
use vstd::utf8::encode_utf8;

use crate::random::random_bytes_32;

verus! {

#[derive(Debug)]
pub enum Error {
    KdfOpFailed,
}

/// The memory-hard algorithm family a `Kdf` runs.  Only one variant is in
/// use; the id is persisted so the format can grow.
#[derive(Clone, Copy, PartialEq, Eq, Structural)]
pub enum KdfAlgorithm {
    Argon2d,
    Argon2i,
    Argon2id,
}

/// The algorithm version a `Kdf` runs.
#[derive(Clone, Copy, PartialEq, Eq, Structural)]
pub enum KdfVersion {
    V0x10,
    V0x13,
}

/// A small integer code distinguishing the algorithm variants, used to
/// index the named derivation result.
pub open spec fn alg_code(a: KdfAlgorithm) -> int {
    match a {
        KdfAlgorithm::Argon2d => 0,
        KdfAlgorithm::Argon2i => 1,
        KdfAlgorithm::Argon2id => 2,
    }
}

/// The version number a `KdfVersion` stands for.
pub open spec fn ver_code(v: KdfVersion) -> int {
    match v {
        KdfVersion::V0x10 => 0x10,
        KdfVersion::V0x13 => 0x13,
    }
}

/// The 32-byte key that the memory-hard derivation returns for the given
/// algorithm, version, cost parameters, salt and passphrase.  The result is
/// a function of these arguments alone, which is what lets the same
/// passphrase re-derive the same protection key later.
pub uninterp spec fn argon2_of(
    alg: int,
    ver: int,
    m_cost: u32,
    t_cost: u32,
    p_cost: u32,
    salt: Seq<u8>,
    passphrase: Seq<u8>,
) -> Seq<u8>;

/// The cost-parameter validation that the derivation performs: enough
/// memory for the requested parallelism, at least one pass, and a
/// parallelism between 1 and 2^24 - 1.
pub open spec fn params_valid(m_cost: u32, t_cost: u32, p_cost: u32) -> bool {
    &&& m_cost >= 8
    &&& m_cost >= 8 * p_cost
    &&& t_cost >= 1
    &&& 1 <= p_cost <= 0xFFFFFF
}

/// Relies on `argon2::Argon2::hash_password_into` with
/// `argon2::Params::new(m, t, p, Some(32))`: succeeds exactly when the cost
/// parameters pass validation and the passphrase is at most 2^32 - 1 bytes
/// (the salt is 32 bytes by type, within the accepted range), and the
/// derived key depends on the listed arguments alone.  The parameter
/// validation multiplies `p_cost` by 8 before bounding it, so a larger
/// `p_cost` would overflow there; the caller rejects such values first.
#[verifier::external_body]
fn argon2_derive(
    alg: KdfAlgorithm,
    ver: KdfVersion,
    m_cost: u32,
    t_cost: u32,
    p_cost: u32,
    salt: &[u8; 32],
    passphrase: &[u8],
) -> (r: Result<[u8; 32], ()>)
    requires
        p_cost <= 0xFFFFFF,
    ensures
        r matches Ok(k) ==> k@ == argon2_of(
            alg_code(alg),
            ver_code(ver),
            m_cost,
            t_cost,
            p_cost,
            salt@,
            passphrase@,
        ) && params_valid(m_cost, t_cost, p_cost) && passphrase@.len() <= u32::MAX,
        r is Err ==> !(params_valid(m_cost, t_cost, p_cost) && passphrase@.len() <= u32::MAX),
{
    let a = match alg {
        KdfAlgorithm::Argon2d => argon2::Algorithm::Argon2d,
        KdfAlgorithm::Argon2i => argon2::Algorithm::Argon2i,
        KdfAlgorithm::Argon2id => argon2::Algorithm::Argon2id,
    };
    let v = match ver {
        KdfVersion::V0x10 => argon2::Version::V0x10,
        KdfVersion::V0x13 => argon2::Version::V0x13,
    };
    let params = argon2::Params::new(m_cost, t_cost, p_cost, Some(32)).map_err(|_| ())?;
    let mut key = [0u8; 32];
    match argon2::Argon2::new(a, v, params).hash_password_into(passphrase, salt, &mut key) {
        Ok(()) => Ok(key),
        Err(_) => Err(()),
    }
}

/// The parameters of one key-protection derivation: algorithm id, version,
/// three cost parameters and a random 32-byte salt.  All fields are public
/// and non-secret; only the derived key is secret.
#[derive(Clone, Copy)]
pub struct Kdf {
    pub alg: KdfAlgorithm,
    pub ver: KdfVersion,
    pub m_cost: u32,
    pub t_cost: u32,
    pub p_cost: u32,
    pub salt: [u8; 32],
}

impl Kdf {
    /// The key this parameter set derives from a passphrase.
    pub open spec fn derived_key(&self, passphrase: Seq<u8>) -> Seq<u8> {
        argon2_of(
            alg_code(self.alg),
            ver_code(self.ver),
            self.m_cost,
            self.t_cost,
            self.p_cost,
            self.salt@,
            passphrase,
        )
    }

    /// Runs the memory-hard derivation with the stored parameters and salt.
    /// Returns `Ok` exactly when the cost parameters pass validation and
    /// the passphrase is of derivable length; parameter rejection and
    /// derivation failure collapse into the one opaque error.
    pub fn derive(&self, passphrase: &str) -> (r: Result<[u8; 32], Error>)
        ensures
            r matches Ok(k) ==> k@ == self.derived_key(encode_utf8(passphrase@)),
            r is Ok <==> params_valid(self.m_cost, self.t_cost, self.p_cost) && encode_utf8(
                passphrase@,
            ).len() <= u32::MAX,
    {
        // An oversized parallelism is invalid on its own; rejecting it
        // here keeps the derivation within the range its validation
        // arithmetic accepts.
        if self.p_cost > 0xFFFFFF {
            return Err(Error::KdfOpFailed);
        }
        match argon2_derive(
            self.alg,
            self.ver,
            self.m_cost,
            self.t_cost,
            self.p_cost,
            &self.salt,
            passphrase.as_bytes(),
        ) {
            Ok(key) => Ok(key),
            Err(()) => Err(Error::KdfOpFailed),
        }
    }
}

impl Default for Kdf {
    /// The current best-practice choice: Argon2id, version 0x13, the
    /// default cost parameters, and a freshly random salt.
    fn default() -> (r: Kdf)
        ensures
            r.alg == KdfAlgorithm::Argon2id,
            r.ver == KdfVersion::V0x13,
            r.m_cost == 19456,
            r.t_cost == 2,
            r.p_cost == 1,
            params_valid(r.m_cost, r.t_cost, r.p_cost),
    {
        Kdf {
            alg: KdfAlgorithm::Argon2id,
            ver: KdfVersion::V0x13,
            // The default cost parameters of the derivation: 19 MiB of
            // memory, two passes, one lane.
            m_cost: 19456,
            t_cost: 2,
            p_cost: 1,
            salt: random_bytes_32(),
        }
    }
}

/// Deriving is deterministic: with identical algorithm, version, cost
/// parameters, salt and passphrase, any two successfully derived keys are
/// the same 32 bytes.
pub proof fn lemma_derive_deterministic(kdf: Kdf, passphrase: Seq<u8>, k1: Seq<u8>, k2: Seq<u8>)
    requires
        k1 == kdf.derived_key(passphrase),
        k2 == kdf.derived_key(passphrase),
    ensures
        k1 == k2,
{
}

} // verus!
