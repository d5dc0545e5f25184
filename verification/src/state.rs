//! The secure state kept per passphrase: the derived protection key, the
//! public KDF parameters, and the encrypted credential ledger.

use vstd::prelude::*;
use vstd::utf8::encode_utf8;

use crate::ciphered::Ciphered;
use crate::ciphered::CipherAlgorithm;
use crate::kdf::Kdf;
use crate::strutil::str_eq;

verus! {

#[derive(Debug)]
pub enum Error {
    Io,
    NoStateDir,
    KdfOpFailed,
    CipherOpFailed,
    LoadingKeyStateFailed,
    SavingKeyStateFailed,
}

impl From<crate::kdf::Error> for Error {
    fn from(err: crate::kdf::Error) -> (r: Error) {
        match err {
            crate::kdf::Error::KdfOpFailed => Error::KdfOpFailed,
        }
    }
}

impl vstd::std_specs::convert::FromSpecImpl<crate::kdf::Error> for Error {
    open spec fn obeys_from_spec() -> bool {
        true
    }

    open spec fn from_spec(err: crate::kdf::Error) -> Error {
        Error::KdfOpFailed
    }
}

impl From<crate::ciphered::Error> for Error {
    fn from(err: crate::ciphered::Error) -> (r: Error) {
        match err {
            crate::ciphered::Error::CipherOpFailed => Error::CipherOpFailed,
        }
    }
}

impl vstd::std_specs::convert::FromSpecImpl<crate::ciphered::Error> for Error {
    open spec fn obeys_from_spec() -> bool {
        true
    }

    open spec fn from_spec(err: crate::ciphered::Error) -> Error {
        Error::CipherOpFailed
    }
}

/// What one ledger entry holds: a domain, an identity and how often the
/// pair has been used.
pub ghost struct CredView {
    pub domain: Seq<char>,
    pub identity: Seq<char>,
    pub count: u16,
}

/// One remembered (domain, identity) pair and its usage count.
pub struct Credentials {
    pub domain: String,
    pub identity: String,
    pub count: u16,
}

impl View for Credentials {
    type V = CredView;

    open spec fn view(&self) -> CredView {
        CredView { domain: self.domain@, identity: self.identity@, count: self.count }
    }
}

/// Whether an entry is for the given pair.
pub open spec fn cred_matches(c: CredView, domain: Seq<char>, identity: Seq<char>) -> bool {
    c.domain == domain && c.identity == identity
}

/// How many entries a ledger holds for the given pair.
pub open spec fn num_matching(s: Seq<CredView>, domain: Seq<char>, identity: Seq<char>) -> nat
    decreases s.len(),
{
    if s.len() == 0 {
        0
    } else {
        (if cred_matches(s[0], domain, identity) {
            1nat
        } else {
            0nat
        }) + num_matching(s.drop_first(), domain, identity)
    }
}

/// The total usage count a ledger records for the given pair.
pub open spec fn total_count(s: Seq<CredView>, domain: Seq<char>, identity: Seq<char>) -> int
    decreases s.len(),
{
    if s.len() == 0 {
        0
    } else {
        (if cred_matches(s[0], domain, identity) {
            s[0].count as int
        } else {
            0
        }) + total_count(s.drop_first(), domain, identity)
    }
}

/// No pair occurs in two entries.
pub open spec fn no_dup_creds(s: Seq<CredView>) -> bool {
    forall|domain: Seq<char>, identity: Seq<char>| num_matching(s, domain, identity) <= 1
}

/// Entries are ordered by ascending usage count.
pub open spec fn sorted_by_count(s: Seq<CredView>) -> bool {
    forall|i: int, j: int| 0 <= i < j < s.len() ==> s[i].count <= s[j].count
}

/// Removing the entry at `j` removes its contribution for every pair.
pub proof fn lemma_ledger_remove(s: Seq<CredView>, j: int, domain: Seq<char>, identity: Seq<char>)
    requires
        0 <= j < s.len(),
    ensures
        num_matching(s.remove(j), domain, identity) == num_matching(s, domain, identity) - (
        if cred_matches(s[j], domain, identity) {
            1int
        } else {
            0int
        }),
        total_count(s.remove(j), domain, identity) == total_count(s, domain, identity) - (
        if cred_matches(s[j], domain, identity) {
            s[j].count as int
        } else {
            0int
        }),
    decreases s.len(),
{
    if j == 0 {
        assert(s.remove(0) =~= s.drop_first());
    } else {
        assert(s.remove(j).drop_first() =~= s.drop_first().remove(j - 1));
        assert(s.remove(j)[0] == s[0]);
        lemma_ledger_remove(s.drop_first(), j - 1, domain, identity);
        assert(s.drop_first()[j - 1] == s[j]);
    }
}

/// Inserting an entry at `j` adds its contribution for every pair.
pub proof fn lemma_ledger_insert(
    s: Seq<CredView>,
    j: int,
    c: CredView,
    domain: Seq<char>,
    identity: Seq<char>,
)
    requires
        0 <= j <= s.len(),
    ensures
        num_matching(s.insert(j, c), domain, identity) == num_matching(s, domain, identity) + (
        if cred_matches(c, domain, identity) {
            1int
        } else {
            0int
        }),
        total_count(s.insert(j, c), domain, identity) == total_count(s, domain, identity) + (
        if cred_matches(c, domain, identity) {
            c.count as int
        } else {
            0int
        }),
    decreases s.len(),
{
    if j == 0 {
        assert(s.insert(0, c).drop_first() =~= s);
        assert(s.insert(0, c)[0] == c);
    } else {
        assert(s.insert(j, c)[0] == s[0]);
        assert(s.insert(j, c).drop_first() =~= s.drop_first().insert(j - 1, c));
        lemma_ledger_insert(s.drop_first(), j - 1, c, domain, identity);
    }
}

/// A pair with no entries contributes no count.
pub proof fn lemma_ledger_absent(s: Seq<CredView>, domain: Seq<char>, identity: Seq<char>)
    requires
        num_matching(s, domain, identity) == 0,
    ensures
        total_count(s, domain, identity) == 0,
    decreases s.len(),
{
    if s.len() > 0 {
        lemma_ledger_absent(s.drop_first(), domain, identity);
    }
}

/// In a ledger with one entry for a pair, the total count is that entry's
/// count, and the entry can be named.
pub proof fn lemma_ledger_found(s: Seq<CredView>, j: int, domain: Seq<char>, identity: Seq<char>)
    requires
        0 <= j < s.len(),
        cred_matches(s[j], domain, identity),
        num_matching(s, domain, identity) <= 1,
    ensures
        num_matching(s, domain, identity) == 1,
        total_count(s, domain, identity) == s[j].count as int,
    decreases s.len(),
{
    if j == 0 {
        assert(num_matching(s, domain, identity) >= 1);
        assert(num_matching(s.drop_first(), domain, identity) == 0);
        lemma_ledger_absent(s.drop_first(), domain, identity);
    } else {
        if cred_matches(s[0], domain, identity) {
            // Two matching entries would make the count exceed one.
            lemma_ledger_positive(s.drop_first(), j - 1, domain, identity);
            assert(false);
        }
        lemma_ledger_found(s.drop_first(), j - 1, domain, identity);
    }
}

/// A matching entry makes the pair's entry count positive.
pub proof fn lemma_ledger_positive(s: Seq<CredView>, j: int, domain: Seq<char>, identity: Seq<char>)
    requires
        0 <= j < s.len(),
        cred_matches(s[j], domain, identity),
    ensures
        num_matching(s, domain, identity) >= 1,
    decreases s.len(),
{
    if j > 0 {
        lemma_ledger_positive(s.drop_first(), j - 1, domain, identity);
    }
}

/// A ledger where no entry matches the pair has no entries for it.
pub proof fn lemma_ledger_none(s: Seq<CredView>, domain: Seq<char>, identity: Seq<char>)
    requires
        forall|j: int| 0 <= j < s.len() ==> !cred_matches(#[trigger] s[j], domain, identity),
    ensures
        num_matching(s, domain, identity) == 0,
    decreases s.len(),
{
    if s.len() > 0 {
        assert(forall|j: int|
            0 <= j < s.drop_first().len() ==> !cred_matches(
                #[trigger] s.drop_first()[j],
                domain,
                identity,
            ));
        lemma_ledger_none(s.drop_first(), domain, identity);
    }
}

/// The entries of a credential vector, as ledger entries.
pub open spec fn creds_view(s: Seq<Credentials>) -> Seq<CredView> {
    s.map_values(|c: Credentials| c@)
}

/// Inserts `c` into a count-sorted vector, keeping it sorted and adding
/// exactly `c`'s contribution for its pair.
fn insert_sorted(out: &mut Vec<Credentials>, c: Credentials)
    requires
        sorted_by_count(creds_view(old(out)@)),
    ensures
        final(out)@.len() == old(out)@.len() + 1,
        sorted_by_count(creds_view(final(out)@)),
        forall|d: Seq<char>, i: Seq<char>|
            num_matching(creds_view(final(out)@), d, i) == num_matching(creds_view(old(out)@), d, i)
                + (if cred_matches(c@, d, i) {
                1int
            } else {
                0int
            }),
        forall|d: Seq<char>, i: Seq<char>|
            total_count(creds_view(final(out)@), d, i) == total_count(creds_view(old(out)@), d, i)
                + (if cred_matches(c@, d, i) {
                c@.count as int
            } else {
                0int
            }),
{
    let n = out.len();
    let mut j: usize = 0;
    while j < n && out[j].count <= c.count
        invariant
            n == out@.len(),
            j <= n,
            forall|k: int| 0 <= k < j ==> creds_view(out@)[k].count <= c@.count,
        decreases n - j,
    {
        proof {
            assert(creds_view(out@)[j as int] == out@[j as int]@);
        }
        j = j + 1;
    }
    let ghost oldv = creds_view(out@);
    let ghost cj = j as int;
    out.insert(j, c);
    proof {
        let newv = creds_view(out@);
        assert(newv =~= oldv.insert(cj, c@)) by {
            assert forall|k: int| 0 <= k < newv.len() implies newv[k] == oldv.insert(cj, c@)[k] by {
                assert(newv[k] == out@[k]@);
                if k < cj {
                    assert(out@[k] == old(out)@[k]);
                    assert(oldv[k] == old(out)@[k]@);
                } else if k == cj {
                    assert(out@[k] == c);
                } else {
                    assert(out@[k] == old(out)@[k - 1]);
                    assert(oldv[k - 1] == old(out)@[k - 1]@);
                }
            }
        }
        assert(sorted_by_count(newv)) by {
            assert forall|a: int, b: int| 0 <= a < b < newv.len() implies newv[a].count
                <= newv[b].count by {
                if a < cj && b < cj {
                    assert(newv[a] == oldv[a] && newv[b] == oldv[b]);
                } else if a < cj && b == cj {
                    assert(newv[a] == oldv[a] && newv[b] == c@);
                } else if a < cj && b > cj {
                    assert(newv[a] == oldv[a] && newv[b] == oldv[b - 1]);
                    if b - 1 >= cj {
                        if a < b - 1 {
                        } else {
                            assert(a == b - 1);
                            assert(newv[a].count <= c@.count);
                            assert(oldv[a] == newv[a]);
                        }
                    }
                } else if a == cj {
                    assert(newv[a] == c@ && newv[b] == oldv[b - 1]);
                    // The scan stopped at the first entry with a larger
                    // count, so everything at or after it is larger.
                    if cj < n {
                        assert(oldv[cj].count > c@.count);
                        assert(oldv[cj].count <= oldv[b - 1].count || cj == b - 1);
                    }
                } else {
                    assert(newv[a] == oldv[a - 1] && newv[b] == oldv[b - 1]);
                }
            }
        }
        assert forall|d: Seq<char>, i: Seq<char>|
            num_matching(newv, d, i) == num_matching(oldv, d, i) + (if cred_matches(c@, d, i) {
                1int
            } else {
                0int
            }) && total_count(newv, d, i) == total_count(oldv, d, i) + (if cred_matches(
                c@,
                d,
                i,
            ) {
                c@.count as int
            } else {
                0int
            }) by {
            lemma_ledger_insert(oldv, cj, c@, d, i);
        }
    }
}

/// Sorts the vector by ascending count, preserving every pair's entry
/// count and total.
fn sort_credentials(v: &mut Vec<Credentials>)
    ensures
        final(v)@.len() == old(v)@.len(),
        sorted_by_count(creds_view(final(v)@)),
        forall|d: Seq<char>, i: Seq<char>|
            num_matching(creds_view(final(v)@), d, i) == num_matching(creds_view(old(v)@), d, i),
        forall|d: Seq<char>, i: Seq<char>|
            total_count(creds_view(final(v)@), d, i) == total_count(creds_view(old(v)@), d, i),
{
    let mut out: Vec<Credentials> = Vec::new();
    proof {
        assert(creds_view(out@) =~= Seq::<CredView>::empty());
    }
    loop
        invariant
            out@.len() + v@.len() == old(v)@.len(),
            sorted_by_count(creds_view(out@)),
            forall|d: Seq<char>, i: Seq<char>|
                num_matching(creds_view(out@), d, i) + num_matching(creds_view(v@), d, i)
                    == num_matching(creds_view(old(v)@), d, i),
            forall|d: Seq<char>, i: Seq<char>|
                total_count(creds_view(out@), d, i) + total_count(creds_view(v@), d, i)
                    == total_count(creds_view(old(v)@), d, i),
        ensures
            out@.len() == old(v)@.len(),
            sorted_by_count(creds_view(out@)),
            forall|d: Seq<char>, i: Seq<char>|
                num_matching(creds_view(out@), d, i) == num_matching(creds_view(old(v)@), d, i),
            forall|d: Seq<char>, i: Seq<char>|
                total_count(creds_view(out@), d, i) == total_count(creds_view(old(v)@), d, i),
        decreases v@.len(),
    {
        let ghost vv = creds_view(v@);
        match v.pop() {
            None => {
                proof {
                    assert(creds_view(v@) =~= Seq::<CredView>::empty());
                    assert forall|d: Seq<char>, i: Seq<char>|
                        num_matching(creds_view(v@), d, i) == 0 && total_count(
                            creds_view(v@),
                            d,
                            i,
                        ) == 0 by {
                        assert(creds_view(v@).len() == 0);
                    }
                }
                break;
            },
            Some(c) => {
                proof {
                    let last = vv.len() - 1;
                    assert(creds_view(v@) =~= vv.remove(last)) by {
                        assert forall|k: int| 0 <= k < creds_view(v@).len() implies creds_view(
                            v@,
                        )[k] == vv.remove(last)[k] by {
                            assert(creds_view(v@)[k] == v@[k]@);
                            assert(vv[k] == c@ || vv[k] == v@[k]@ || true);
                        }
                    }
                    assert(c@ == vv[last]);
                    assert forall|d: Seq<char>, i: Seq<char>|
                        num_matching(creds_view(v@), d, i) + (if cred_matches(c@, d, i) {
                            1int
                        } else {
                            0int
                        }) == num_matching(vv, d, i) && total_count(creds_view(v@), d, i) + (
                    if cred_matches(c@, d, i) {
                        c@.count as int
                    } else {
                        0int
                    }) == total_count(vv, d, i) by {
                        lemma_ledger_remove(vv, last, d, i);
                    }
                }
                insert_sorted(&mut out, c);
            },
        }
    }
    *v = out;
}

/// The ledger of remembered credentials, persisted only inside an
/// envelope.
pub struct SecretKeyState {
    pub credentials: Vec<Credentials>,
}

impl View for SecretKeyState {
    type V = Seq<CredView>;

    open spec fn view(&self) -> Seq<CredView> {
        self.credentials@.map_values(|c: Credentials| c@)
    }
}

impl SecretKeyState {
    /// An empty ledger.
    pub fn new_empty() -> (r: SecretKeyState)
        ensures
            r@ =~= Seq::<CredView>::empty(),
            no_dup_creds(r@),
            sorted_by_count(r@),
    {
        let r = SecretKeyState { credentials: Vec::new() };
        proof {
            assert(r@ =~= Seq::<CredView>::empty());
            assert forall|domain: Seq<char>, identity: Seq<char>|
                num_matching(r@, domain, identity) <= 1 by {
                assert(num_matching(r@, domain, identity) == 0);
            }
        }
        r
    }
}

/// The cleartext part of the persisted record: the fingerprint the file is
/// named after and the KDF parameters that re-derive the protection key.
pub struct PublicKeyState {
    pub fingerprint: String,
    pub kdf: Kdf,
}

impl PublicKeyState {
    fn new(fingerprint: &str, kdf: Kdf) -> (r: Self)
        ensures
            r.fingerprint@ == fingerprint@,
            r.kdf == kdf,
    {
        Self { fingerprint: <String as vstd::string::StringExecFns>::from_str(fingerprint), kdf }
    }
}

/// The persisted record: the public header and the enveloped ledger.
pub struct EncryptedKeyState {
    pub public: PublicKeyState,
    pub secret: Ciphered,
}

/// The in-memory state for one recognized passphrase: the derived
/// protection key, the public header, and the decrypted ledger.
pub struct KeyState {
    pub key: [u8; 32],
    pub public: PublicKeyState,
    pub secret: SecretKeyState,
}

impl KeyState {
    /// Creates fresh state for a passphrase: default KDF parameters with a
    /// fresh salt, the key they derive, and an empty ledger.  Fails only
    /// when the derivation itself cannot run.
    pub fn new(skeleton_key: &crate::types::Passphrase, fingerprint: &str) -> (r: Result<
        Self,
        Error,
    >)
        ensures
            r matches Ok(ks) ==> ks.key@ == ks.public.kdf.derived_key(
                encode_utf8(skeleton_key@),
            ) && ks.public.fingerprint@ == fingerprint@ && ks.secret@ =~= Seq::<CredView>::empty()
                && ks.public.kdf.alg == crate::kdf::KdfAlgorithm::Argon2id && crate::kdf::params_valid(
                ks.public.kdf.m_cost,
                ks.public.kdf.t_cost,
                ks.public.kdf.p_cost,
            ),
            r is Ok <==> encode_utf8(skeleton_key@).len() <= u32::MAX,
            r matches Err(e) ==> e is KdfOpFailed,
    {
        let kdf = Kdf::default();
        let key = match kdf.derive(skeleton_key.as_str()) {
            Ok(key) => key,
            Err(e) => {
                return Err(Error::from(e));
            },
        };
        Ok(Self {
            key,
            public: PublicKeyState::new(fingerprint, kdf),
            secret: SecretKeyState::new_empty(),
        })
    }

    /// Memorizes the given domain-identity pair: the matching entry's
    /// count grows by one (saturating at the largest count), or a fresh
    /// entry with count 1 appears; the ledger comes out sorted by
    /// ascending count, and no other pair changes.
    pub fn touch(&mut self, domain: &str, identity: &str)
        ensures
            final(self).key == old(self).key,
            final(self).public == old(self).public,
            sorted_by_count(final(self).secret@),
            final(self).secret@.len() == old(self).secret@.len() + (if num_matching(
                old(self).secret@,
                domain@,
                identity@,
            ) == 0 {
                1int
            } else {
                0int
            }),
            num_matching(final(self).secret@, domain@, identity@) == (if num_matching(
                old(self).secret@,
                domain@,
                identity@,
            ) == 0 {
                1nat
            } else {
                num_matching(old(self).secret@, domain@, identity@)
            }),
            forall|d2: Seq<char>, i2: Seq<char>|
                !(d2 == domain@ && i2 == identity@) ==> num_matching(final(self).secret@, d2, i2)
                    == num_matching(old(self).secret@, d2, i2) && total_count(
                    final(self).secret@,
                    d2,
                    i2,
                ) == total_count(old(self).secret@, d2, i2),
            no_dup_creds(old(self).secret@) ==> no_dup_creds(final(self).secret@),
            no_dup_creds(old(self).secret@) ==> total_count(final(self).secret@, domain@, identity@)
                == (if num_matching(old(self).secret@, domain@, identity@) == 0 {
                1int
            } else if total_count(old(self).secret@, domain@, identity@) < 65535 {
                total_count(old(self).secret@, domain@, identity@) + 1
            } else {
                total_count(old(self).secret@, domain@, identity@)
            }),
    {
        let ghost sv = self.secret@;
        let n = self.secret.credentials.len();
        let mut i: usize = 0;
        let mut found: bool = false;
        while i < n && !found
            invariant
                n == self.secret.credentials@.len(),
                self.secret@ == sv,
                self == old(self),
                i <= n,
                !found ==> forall|k: int|
                    0 <= k < i ==> !cred_matches(#[trigger] sv[k], domain@, identity@),
                found ==> i < n && cred_matches(sv[i as int], domain@, identity@),
            decreases n - i + (if found {
                0int
            } else {
                1int
            }),
        {
            let dm = str_eq(self.secret.credentials[i].domain.as_str(), domain);
            let im = str_eq(self.secret.credentials[i].identity.as_str(), identity);
            proof {
                assert(sv[i as int] == self.secret.credentials@[i as int]@);
            }
            if dm && im {
                found = true;
            } else {
                i = i + 1;
            }
        }
        let ghost target = CredView { domain: domain@, identity: identity@, count: 0 };
        if found {
            let oldc = self.secret.credentials[i].count;
            let newc: u16 = if oldc < 65535 {
                oldc + 1
            } else {
                oldc
            };
            let updated = Credentials {
                domain: <String as vstd::string::StringExecFns>::from_str(domain),
                identity: <String as vstd::string::StringExecFns>::from_str(identity),
                count: newc,
            };
            let ghost uv = updated@;
            self.secret.credentials[i] = updated;
            proof {
                let mid = self.secret@;
                assert(mid =~= sv.update(i as int, uv)) by {
                    assert forall|k: int| 0 <= k < mid.len() implies mid[k] == sv.update(
                        i as int,
                        uv,
                    )[k] by {
                        assert(mid[k] == self.secret.credentials@[k]@);
                    }
                }
                assert(sv.update(i as int, uv) =~= sv.remove(i as int).insert(i as int, uv));
                assert(oldc == sv[i as int].count);
                assert forall|d2: Seq<char>, i2: Seq<char>|
                    num_matching(mid, d2, i2) == num_matching(sv, d2, i2) && total_count(
                        mid,
                        d2,
                        i2,
                    ) == total_count(sv, d2, i2) - (if cred_matches(sv[i as int], d2, i2) {
                        oldc as int
                    } else {
                        0int
                    }) + (if cred_matches(uv, d2, i2) {
                        newc as int
                    } else {
                        0int
                    }) by {
                    lemma_ledger_remove(sv, i as int, d2, i2);
                    lemma_ledger_insert(sv.remove(i as int), i as int, uv, d2, i2);
                    assert(cred_matches(sv[i as int], d2, i2) == cred_matches(uv, d2, i2));
                }
                lemma_ledger_positive(sv, i as int, domain@, identity@);
                if no_dup_creds(sv) {
                    lemma_ledger_found(sv, i as int, domain@, identity@);
                }
            }
        } else {
            let fresh = Credentials {
                domain: <String as vstd::string::StringExecFns>::from_str(domain),
                identity: <String as vstd::string::StringExecFns>::from_str(identity),
                count: 1,
            };
            let ghost fv = fresh@;
            self.secret.credentials.push(fresh);
            proof {
                let mid = self.secret@;
                assert(mid =~= sv.insert(sv.len() as int, fv)) by {
                    assert forall|k: int| 0 <= k < mid.len() implies mid[k] == sv.insert(
                        sv.len() as int,
                        fv,
                    )[k] by {
                        assert(mid[k] == self.secret.credentials@[k]@);
                    }
                }
                assert forall|d2: Seq<char>, i2: Seq<char>|
                    num_matching(mid, d2, i2) == num_matching(sv, d2, i2) + (if cred_matches(
                        fv,
                        d2,
                        i2,
                    ) {
                        1int
                    } else {
                        0int
                    }) && total_count(mid, d2, i2) == total_count(sv, d2, i2) + (if cred_matches(
                        fv,
                        d2,
                        i2,
                    ) {
                        1int
                    } else {
                        0int
                    }) by {
                    lemma_ledger_insert(sv, sv.len() as int, fv, d2, i2);
                }
                lemma_ledger_none(sv, domain@, identity@);
                if no_dup_creds(sv) {
                    lemma_ledger_absent(sv, domain@, identity@);
                }
            }
        }
        sort_credentials(&mut self.secret.credentials);
        proof {
            assert(final(self).secret@ == creds_view(final(self).secret.credentials@));
            if no_dup_creds(sv) {
                assert forall|d2: Seq<char>, i2: Seq<char>|
                    num_matching(final(self).secret@, d2, i2) <= 1 by {
                    assert(num_matching(sv, d2, i2) <= 1);
                }
            }
        }
    }

    /// Re-encrypts the ledger under the in-memory protection key with a
    /// fresh random nonce.  Succeeds whenever the serialized ledger is
    /// under the cipher's length bound.
    pub fn encrypt(&self) -> (r: Result<EncryptedKeyState, Error>)
        ensures
            r matches Ok(e) ==> e.public == self.public && e.secret.opens_to(self.key@) == Some(
                crate::storejson::json_of_secret(self.secret@),
            ) && e.secret.alg_spec() == CipherAlgorithm::AesGcm256,
            r is Ok <==> crate::storejson::json_of_secret(self.secret@).len() <= 0x1000000000,
    {
        let plain = crate::storejson::secret_to_json(&self.secret);
        if plain.len() as u64 > 0x1000000000u64 {
            return Err(Error::CipherOpFailed);
        }
        match Ciphered::cipher(plain.as_slice(), &self.key) {
            Ok(secret) => Ok(
                EncryptedKeyState {
                    public: PublicKeyState {
                        fingerprint: self.public.fingerprint.clone(),
                        kdf: self.public.kdf,
                    },
                    secret,
                },
            ),
            Err(e) => Err(Error::from(e)),
        }
    }
}

impl EncryptedKeyState {
    /// Re-derives the protection key from the passphrase and the stored
    /// KDF parameters and deciphers the ledger.  A failed derivation, a
    /// ciphertext that does not authenticate under the derived key, and a
    /// plaintext that is not a ledger rendering all collapse into opaque
    /// errors; whenever the envelope opens to the rendering of some
    /// ledger, exactly that ledger comes back.
    pub fn decrypt(self, skeleton_key: &crate::types::Passphrase) -> (r: Result<KeyState, Error>)
        ensures
            r matches Ok(ks) ==> ks.public == self.public && ks.key@
                == self.public.kdf.derived_key(encode_utf8(skeleton_key@))
                && self.secret.opens_to(ks.key@) == Some(
                crate::storejson::json_of_secret(ks.secret@),
            ),
            forall|sv: Seq<CredView>|
                #![trigger crate::storejson::json_of_secret(sv)]
                (encode_utf8(skeleton_key@).len() <= u32::MAX && crate::kdf::params_valid(
                    self.public.kdf.m_cost,
                    self.public.kdf.t_cost,
                    self.public.kdf.p_cost,
                ) && self.secret.opens_to(
                    self.public.kdf.derived_key(encode_utf8(skeleton_key@)),
                ) == Some(crate::storejson::json_of_secret(sv))) ==> (r matches Ok(ks)
                    && ks.secret@ == sv),
            r matches Err(e) ==> (if crate::kdf::params_valid(
                self.public.kdf.m_cost,
                self.public.kdf.t_cost,
                self.public.kdf.p_cost,
            ) && encode_utf8(skeleton_key@).len() <= u32::MAX {
                e is CipherOpFailed
            } else {
                e is KdfOpFailed
            }),
    {
        let key = match self.public.kdf.derive(skeleton_key.as_str()) {
            Ok(k) => k,
            Err(e) => {
                return Err(Error::from(e));
            },
        };
        let plain = match self.secret.decipher(&key) {
            Ok(p) => p,
            Err(e) => {
                return Err(Error::from(e));
            },
        };
        match crate::storejson::parse_secret(plain.as_slice()) {
            Some(secret) => Ok(KeyState { key, public: self.public, secret }),
            None => Err(Error::CipherOpFailed),
        }
    }
}

/// The name of the state file for a fingerprint: `<fingerprint>.json`,
/// with the process id appended for the temporary file a save writes
/// before its atomic rename.
pub fn key_state_file_name(fingerprint: &str, temp_pid: Option<u32>) -> (r: String)
    ensures
        temp_pid matches Some(pid) ==> r@ == fingerprint@ + ".json."@
            + crate::strutil::ascii_chars_of(crate::jsontext::dec(pid as int)),
        temp_pid is None ==> r@ == fingerprint@ + ".json"@,
{
    let mut name = <String as vstd::string::StringExecFns>::from_str(fingerprint);
    match temp_pid {
        None => {
            vstd::string::StringExecFns::append(&mut name, ".json");
        },
        Some(pid) => {
            vstd::string::StringExecFns::append(&mut name, ".json.");
            let mut digits: Vec<u8> = Vec::new();
            crate::jsontext::push_dec_u32(pid, &mut digits);
            proof {
                crate::jsontext::lemma_dec_digits(pid as int);
                assert(crate::strutil::all_ascii(digits@));
            }
            let ds = crate::strutil::ascii_string(digits);
            vstd::string::StringExecFns::append(&mut name, ds.as_str());
        },
    }
    name
}

} // verus!
