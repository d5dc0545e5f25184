//! The persisted JSON record: its exact byte layout, a serializer that
//! produces it, and a parser that accepts precisely that layout.

use vstd::prelude::*;
use vstd::utf8::encode_utf8;

use crate::b64::{b64_ascii, b64_decode, b64_encode, lemma_b64_injective};
use crate::ciphered::CipherAlgorithm;
use crate::jsontext::{
    dec, is_digit, jstr, lit, starts_at, bytes_eq, expect_lit, parse_dec_u32, parse_jstr,
    push_dec_u32, push_jstr, push_lit, lemma_starts_at_concat, lemma_starts_at_index,
    lemma_concat_assoc,
};
use crate::kdf::{Kdf, KdfAlgorithm, KdfVersion};
use crate::state::{CredView, Credentials, SecretKeyState, creds_view};
use crate::strutil::string_from_utf8;
use vstd::string::StringSliceAdditionalSpecFns;

verus! {

/// The name under which an algorithm variant is persisted.
pub open spec fn alg_lit(a: KdfAlgorithm) -> Seq<u8> {
    match a {
        KdfAlgorithm::Argon2d => lit("Argon2d"),
        KdfAlgorithm::Argon2i => lit("Argon2i"),
        KdfAlgorithm::Argon2id => lit("Argon2id"),
    }
}

/// The name under which a KDF version is persisted.
pub open spec fn ver_lit(v: KdfVersion) -> Seq<u8> {
    match v {
        KdfVersion::V0x10 => lit("0x10"),
        KdfVersion::V0x13 => lit("0x13"),
    }
}

/// The persisted rendering of the KDF parameters.
#[verifier::opaque]
pub open spec fn json_of_kdf(k: Kdf) -> Seq<u8> {
    lit("{\"alg\":") + kdf_tail1(k)
}

/// The rendering of the KDF parameters after the algorithm key, and so on
/// field by field.
#[verifier::opaque]
pub open spec fn kdf_tail1(k: Kdf) -> Seq<u8> {
    jstr(alg_lit(k.alg)) + kdf_tail2(k)
}

#[verifier::opaque]
pub open spec fn kdf_tail2(k: Kdf) -> Seq<u8> {
    lit(",\"ver\":") + kdf_tail3(k)
}

#[verifier::opaque]
pub open spec fn kdf_tail3(k: Kdf) -> Seq<u8> {
    jstr(ver_lit(k.ver)) + kdf_tail4(k)
}

#[verifier::opaque]
pub open spec fn kdf_tail4(k: Kdf) -> Seq<u8> {
    lit(",\"m_cost\":") + kdf_tail5(k)
}

#[verifier::opaque]
pub open spec fn kdf_tail5(k: Kdf) -> Seq<u8> {
    dec(k.m_cost as int) + kdf_tail6(k)
}

#[verifier::opaque]
pub open spec fn kdf_tail6(k: Kdf) -> Seq<u8> {
    lit(",\"t_cost\":") + kdf_tail7(k)
}

#[verifier::opaque]
pub open spec fn kdf_tail7(k: Kdf) -> Seq<u8> {
    dec(k.t_cost as int) + kdf_tail8(k)
}

#[verifier::opaque]
pub open spec fn kdf_tail8(k: Kdf) -> Seq<u8> {
    lit(",\"p_cost\":") + kdf_tail9(k)
}

#[verifier::opaque]
pub open spec fn kdf_tail9(k: Kdf) -> Seq<u8> {
    dec(k.p_cost as int) + kdf_tail10(k)
}

#[verifier::opaque]
pub open spec fn kdf_tail10(k: Kdf) -> Seq<u8> {
    lit(",\"salt\":") + (jstr(b64_ascii(k.salt@)) + lit("}"))
}

/// What the whole persisted record holds.
pub ghost struct EncView {
    pub fingerprint: Seq<char>,
    pub kdf: Kdf,
    pub nonce: Seq<u8>,
    pub ct: Seq<u8>,
}

/// The persisted rendering of the whole record: the public header and the
/// enveloped ledger.
pub open spec fn json_of_enc(e: EncView) -> Seq<u8> {
    lit("{\"public\":{\"fingerprint\":") + enc_tail1(e)
}

/// The rendering of the record after the fingerprint key, and so on field
/// by field.
#[verifier::opaque]
pub open spec fn enc_tail1(e: EncView) -> Seq<u8> {
    jstr(encode_utf8(e.fingerprint)) + enc_tail2(e)
}

#[verifier::opaque]
pub open spec fn enc_tail2(e: EncView) -> Seq<u8> {
    lit(",\"kdf\":") + enc_tail3(e)
}

#[verifier::opaque]
pub open spec fn enc_tail3(e: EncView) -> Seq<u8> {
    json_of_kdf(e.kdf) + enc_tail4(e)
}

#[verifier::opaque]
pub open spec fn enc_tail4(e: EncView) -> Seq<u8> {
    lit("},\"secret\":{\"alg\":\"AES-GCM-256\",\"nonce\":") + enc_tail5(e)
}

#[verifier::opaque]
pub open spec fn enc_tail5(e: EncView) -> Seq<u8> {
    jstr(b64_ascii(e.nonce)) + enc_tail6(e)
}

#[verifier::opaque]
pub open spec fn enc_tail6(e: EncView) -> Seq<u8> {
    lit(",\"ciphered\":") + (jstr(b64_ascii(e.ct)) + lit("}}"))
}

impl View for crate::state::EncryptedKeyState {
    type V = EncView;

    open spec fn view(&self) -> EncView {
        EncView {
            fingerprint: self.public.fingerprint@,
            kdf: self.public.kdf,
            nonce: self.secret.nonce_spec(),
            ct: self.secret.ciphertext_spec(),
        }
    }
}

/// The persisted rendering of one ledger entry.
pub open spec fn json_of_cred(c: CredView) -> Seq<u8> {
    lit("{\"domain\":") + (jstr(encode_utf8(c.domain)) + (lit(",\"identity\":") + (jstr(
        encode_utf8(c.identity),
    ) + (lit(",\"count\":") + (dec(c.count as int) + lit("}"))))))
}

/// The comma-separated renderings of the ledger entries.
pub open spec fn json_of_creds(s: Seq<CredView>) -> Seq<u8>
    decreases s.len(),
{
    if s.len() == 0 {
        seq![]
    } else if s.len() == 1 {
        json_of_cred(s[0])
    } else {
        json_of_cred(s[0]) + (lit(",") + json_of_creds(s.drop_first()))
    }
}

/// The persisted rendering of the decrypted ledger.
pub open spec fn json_of_secret(s: Seq<CredView>) -> Seq<u8> {
    lit("{\"credentials\":[") + (json_of_creds(s) + lit("]}"))
}

/// Serializes one ledger entry.
fn cred_to_json(c: &Credentials, out: &mut Vec<u8>)
    ensures
        final(out)@ == old(out)@ + json_of_cred(c@),
{
    push_lit(out, "{\"domain\":");
    push_jstr(out, c.domain.as_str().as_bytes());
    push_lit(out, ",\"identity\":");
    push_jstr(out, c.identity.as_str().as_bytes());
    push_lit(out, ",\"count\":");
    push_dec_u32(c.count as u32, out);
    push_lit(out, "}");
    proof {
        assert(final(out)@ =~= old(out)@ + json_of_cred(c@));
    }
}

proof fn lemma_creds_snoc(s: Seq<CredView>, c: CredView)
    ensures
        s.len() == 0 ==> json_of_creds(s.push(c)) == json_of_cred(c),
        s.len() > 0 ==> json_of_creds(s.push(c)) == json_of_creds(s) + (lit(",") + json_of_cred(
            c,
        )),
    decreases s.len(),
{
    if s.len() == 0 {
        assert(s.push(c)[0] == c);
        assert(s.push(c).len() == 1);
    } else {
        assert(s.push(c).drop_first() =~= s.drop_first().push(c));
        lemma_creds_snoc(s.drop_first(), c);
        if s.len() == 1 {
            assert(json_of_creds(s.push(c)) == json_of_cred(s[0]) + (lit(",") + json_of_cred(c)));
            assert(json_of_creds(s) == json_of_cred(s[0]));
        } else {
            assert(json_of_creds(s.push(c)) == json_of_cred(s[0]) + (lit(",") + (json_of_creds(
                s.drop_first(),
            ) + (lit(",") + json_of_cred(c)))));
            assert(json_of_cred(s[0]) + (lit(",") + (json_of_creds(s.drop_first()) + (lit(",")
                + json_of_cred(c)))) =~= (json_of_cred(s[0]) + (lit(",") + json_of_creds(
                s.drop_first(),
            ))) + (lit(",") + json_of_cred(c)));
        }
    }
}

/// Serializes the decrypted ledger to its persisted bytes.
pub fn secret_to_json(s: &SecretKeyState) -> (r: Vec<u8>)
    ensures
        r@ == json_of_secret(s@),
{
    let mut out: Vec<u8> = Vec::new();
    push_lit(&mut out, "{\"credentials\":[");
    let n = s.credentials.len();
    let mut i: usize = 0;
    while i < n
        invariant
            n == s.credentials@.len(),
            i <= n,
            out@ == lit("{\"credentials\":[") + json_of_creds(s@.take(i as int)),
            s@ == creds_view(s.credentials@),
        decreases n - i,
    {
        if i > 0 {
            push_lit(&mut out, ",");
        }
        cred_to_json(&s.credentials[i], &mut out);
        proof {
            let pre = s@.take(i as int);
            let cv = s.credentials@[i as int]@;
            assert(cv == s@[i as int]);
            assert(s@.take(i + 1) =~= pre.push(cv));
            lemma_creds_snoc(pre, cv);
            if i == 0 {
                assert(out@ =~= lit("{\"credentials\":[") + json_of_creds(s@.take(i + 1)));
            } else {
                assert(out@ =~= lit("{\"credentials\":[") + json_of_creds(s@.take(i + 1)));
            }
        }
        i = i + 1;
    }
    push_lit(&mut out, "]}");
    proof {
        assert(s@.take(n as int) =~= s@);
        assert(out@ =~= json_of_secret(s@));
    }
    out
}

/// Reads one ledger entry at `pos`.
#[verifier::rlimit(100)]
fn parse_credential(buf: &[u8], pos: usize) -> (r: Option<(Credentials, usize)>)
    ensures
        r matches Some(t) ==> starts_at(buf@, pos as int, json_of_cred(t.0@)) && t.1 == pos
            + json_of_cred(t.0@).len(),
        forall|c: CredView|
            #![trigger json_of_cred(c)]
            starts_at(buf@, pos as int, json_of_cred(c)) ==> (r matches Some(t) && t.0@ == c
                && t.1 == pos + json_of_cred(c).len()),
{
    // Each early exit first shows that no entry rendering can occur at
    // `pos`, so the completeness claim is vacuous there.
    proof {
        assert forall|c: CredView|
            #![trigger json_of_cred(c)]
            starts_at(buf@, pos as int, json_of_cred(c)) implies starts_at(
            buf@,
            pos as int,
            lit("{\"domain\":"),
        ) by {
            lemma_starts_at_concat(buf@, pos as int, lit("{\"domain\":"), cred_tail1(c));
        }
    }
    let p1 = match expect_lit(buf, pos, "{\"domain\":") {
        Some(p) => p,
        None => {
            return None;
        },
    };
    proof {
        assert forall|c: CredView|
            #![trigger json_of_cred(c)]
            starts_at(buf@, pos as int, json_of_cred(c)) implies starts_at(
            buf@,
            p1 as int,
            cred_tail1(c),
        ) && starts_at(buf@, p1 as int, jstr(encode_utf8(c.domain))) by {
            lemma_starts_at_concat(buf@, pos as int, lit("{\"domain\":"), cred_tail1(c));
            lemma_starts_at_concat(buf@, p1 as int, jstr(encode_utf8(c.domain)), cred_tail2(c));
        }
    }
    let (dv, p2) = match parse_jstr(buf, p1) {
        Some(t) => t,
        None => {
            return None;
        },
    };
    let ghost dbytes = dv@;
    let dstr = match string_from_utf8(dv) {
        Some(s) => s,
        None => {
            proof {
                assert forall|c: CredView|
                    #![trigger json_of_cred(c)]
                    !starts_at(buf@, pos as int, json_of_cred(c)) by {
                    if starts_at(buf@, pos as int, json_of_cred(c)) {
                        assert(dbytes == encode_utf8(c.domain));
                        vstd::utf8::encode_utf8_valid_utf8(c.domain);
                    }
                }
            }
            return None;
        },
    };
    proof {
        assert forall|c: CredView|
            #![trigger json_of_cred(c)]
            starts_at(buf@, pos as int, json_of_cred(c)) implies dstr@ == c.domain && starts_at(
            buf@,
            p2 as int,
            cred_tail2(c),
        ) && starts_at(buf@, p2 as int, lit(",\"identity\":")) by {
            assert(starts_at(buf@, p1 as int, cred_tail1(c)));
            assert(dbytes == encode_utf8(c.domain));
            assert(p2 == p1 + jstr(encode_utf8(c.domain)).len());
            assert(encode_utf8(dstr@) == dbytes);
            vstd::utf8::encode_utf8_decode_utf8(dstr@);
            vstd::utf8::encode_utf8_decode_utf8(c.domain);
            lemma_starts_at_concat(buf@, p1 as int, jstr(encode_utf8(c.domain)), cred_tail2(c));
            lemma_starts_at_concat(buf@, p2 as int, lit(",\"identity\":"), cred_tail3(c));
        }
    }
    let p3 = match expect_lit(buf, p2, ",\"identity\":") {
        Some(p) => p,
        None => {
            return None;
        },
    };
    proof {
        assert forall|c: CredView|
            #![trigger json_of_cred(c)]
            starts_at(buf@, pos as int, json_of_cred(c)) implies starts_at(
            buf@,
            p3 as int,
            cred_tail3(c),
        ) && starts_at(buf@, p3 as int, jstr(encode_utf8(c.identity))) by {
            lemma_starts_at_concat(buf@, p2 as int, lit(",\"identity\":"), cred_tail3(c));
            lemma_starts_at_concat(buf@, p3 as int, jstr(encode_utf8(c.identity)), cred_tail4(c));
        }
    }
    let (iv, p4) = match parse_jstr(buf, p3) {
        Some(t) => t,
        None => {
            return None;
        },
    };
    let ghost ibytes = iv@;
    let istr = match string_from_utf8(iv) {
        Some(s) => s,
        None => {
            proof {
                assert forall|c: CredView|
                    #![trigger json_of_cred(c)]
                    !starts_at(buf@, pos as int, json_of_cred(c)) by {
                    if starts_at(buf@, pos as int, json_of_cred(c)) {
                        assert(ibytes == encode_utf8(c.identity));
                        vstd::utf8::encode_utf8_valid_utf8(c.identity);
                    }
                }
            }
            return None;
        },
    };
    proof {
        assert forall|c: CredView|
            #![trigger json_of_cred(c)]
            starts_at(buf@, pos as int, json_of_cred(c)) implies istr@ == c.identity && starts_at(
            buf@,
            p4 as int,
            cred_tail4(c),
        ) && starts_at(buf@, p4 as int, lit(",\"count\":")) by {
            assert(starts_at(buf@, p3 as int, cred_tail3(c)));
            assert(ibytes == encode_utf8(c.identity));
            assert(p4 == p3 + jstr(encode_utf8(c.identity)).len());
            assert(encode_utf8(istr@) == ibytes);
            vstd::utf8::encode_utf8_decode_utf8(istr@);
            vstd::utf8::encode_utf8_decode_utf8(c.identity);
            lemma_starts_at_concat(buf@, p3 as int, jstr(encode_utf8(c.identity)), cred_tail4(c));
            lemma_starts_at_concat(buf@, p4 as int, lit(",\"count\":"), dec(c.count as int) + lit("}"));
        }
    }
    let p5 = match expect_lit(buf, p4, ",\"count\":") {
        Some(p) => p,
        None => {
            return None;
        },
    };
    proof {
        // The byte after the number is the closing brace, never a digit.
        reveal_strlit("}");
        vstd::utf8::is_ascii_chars_encode_utf8("}"@);
        assert(lit("}").len() == 1 && lit("}")[0] == 125);
        assert forall|c: CredView|
            #![trigger json_of_cred(c)]
            starts_at(buf@, pos as int, json_of_cred(c)) implies starts_at(
            buf@,
            p5 as int,
            dec(c.count as int),
        ) && (p5 + dec(c.count as int).len() == buf@.len() || !is_digit(
            buf@[p5 + dec(c.count as int).len()],
        )) by {
            lemma_starts_at_concat(buf@, p4 as int, lit(",\"count\":"), dec(c.count as int) + lit("}"));
            lemma_starts_at_concat(buf@, p5 as int, dec(c.count as int), lit("}"));
            lemma_starts_at_index(buf@, p5 + dec(c.count as int).len(), lit("}"), 0);
        }
    }
    let (num, p6) = match parse_dec_u32(buf, p5) {
        Some(t) => t,
        None => {
            proof {
                assert forall|c: CredView|
                    #![trigger json_of_cred(c)]
                    !starts_at(buf@, pos as int, json_of_cred(c)) by {
                    if starts_at(buf@, pos as int, json_of_cred(c)) {
                        assert(dec(c.count as u32 as int) == dec(c.count as int));
                    }
                }
            }
            return None;
        },
    };
    if num > 65535 {
        proof {
            assert forall|c: CredView|
                #![trigger json_of_cred(c)]
                !starts_at(buf@, pos as int, json_of_cred(c)) by {
                if starts_at(buf@, pos as int, json_of_cred(c)) {
                    assert(dec(c.count as u32 as int) == dec(c.count as int));
                    assert(num == c.count as u32);
                }
            }
        }
        return None;
    }
    let p7 = match expect_lit(buf, p6, "}") {
        Some(p) => p,
        None => {
            proof {
                assert forall|c: CredView|
                    #![trigger json_of_cred(c)]
                    !starts_at(buf@, pos as int, json_of_cred(c)) by {
                    if starts_at(buf@, pos as int, json_of_cred(c)) {
                        lemma_starts_at_concat(
                            buf@,
                            p4 as int,
                            lit(",\"count\":"),
                            dec(c.count as int) + lit("}"),
                        );
                        lemma_starts_at_concat(buf@, p5 as int, dec(c.count as int), lit("}"));
                        assert(dec(c.count as u32 as int) == dec(c.count as int));
                        assert(num == c.count as u32);
                        assert(p6 == p5 + dec(c.count as int).len());
                        assert(starts_at(buf@, p6 as int, lit("}")));
                    }
                }
            }
            return None;
        },
    };
    let cred = Credentials { domain: dstr, identity: istr, count: num as u16 };
    proof {
        // Soundness: the consumed span is exactly this entry's rendering.
        lemma_starts_at_concat(buf@, p5 as int, dec(num as int), lit("}"));
        lemma_starts_at_concat(buf@, p4 as int, lit(",\"count\":"), dec(num as int) + lit("}"));
        lemma_starts_at_concat(buf@, p3 as int, jstr(encode_utf8(cred.identity@)), cred_tail4(cred@));
        lemma_starts_at_concat(buf@, p2 as int, lit(",\"identity\":"), cred_tail3(cred@));
        lemma_starts_at_concat(buf@, p1 as int, jstr(encode_utf8(cred.domain@)), cred_tail2(cred@));
        lemma_starts_at_concat(buf@, pos as int, lit("{\"domain\":"), cred_tail1(cred@));
        assert(starts_at(buf@, pos as int, json_of_cred(cred@)));
        assert forall|c: CredView|
            #![trigger json_of_cred(c)]
            starts_at(buf@, pos as int, json_of_cred(c)) implies cred@ == c && p7 == pos
            + json_of_cred(c).len() by {
            assert(dec(c.count as u32 as int) == dec(c.count as int));
            assert(num == c.count as u32);
            assert(cred@.domain == c.domain && cred@.identity == c.identity && cred@.count
                == c.count);
        }
    }
    Some((cred, p7))
}

/// The rendering of an entry after its opening key.
pub open spec fn cred_tail1(c: CredView) -> Seq<u8> {
    jstr(encode_utf8(c.domain)) + cred_tail2(c)
}

/// ... after the domain string.
pub open spec fn cred_tail2(c: CredView) -> Seq<u8> {
    lit(",\"identity\":") + cred_tail3(c)
}

/// ... after the identity key.
pub open spec fn cred_tail3(c: CredView) -> Seq<u8> {
    jstr(encode_utf8(c.identity)) + cred_tail4(c)
}

/// ... after the identity string.
pub open spec fn cred_tail4(c: CredView) -> Seq<u8> {
    lit(",\"count\":") + (dec(c.count as int) + lit("}"))
}


/// The renderings of a split ledger: the first `k` entries, a comma when
/// entries follow, and the rest.
proof fn lemma_creds_split(s: Seq<CredView>, k: int)
    requires
        0 < k < s.len(),
    ensures
        json_of_creds(s) == json_of_creds(s.take(k)) + (lit(",") + json_of_creds(s.skip(k))),
    decreases k,
{
    if k == 1 {
        assert(s.take(1).len() == 1);
        assert(s.take(1)[0] == s[0]);
        assert(json_of_creds(s.take(1)) == json_of_cred(s[0]));
        assert(s.drop_first() =~= s.skip(1));
        assert(json_of_creds(s) == json_of_cred(s[0]) + (lit(",") + json_of_creds(s.skip(1))));
    } else {
        lemma_creds_split(s.drop_first(), k - 1);
        assert(s.drop_first().take(k - 1) =~= s.take(k).drop_first());
        assert(s.drop_first().skip(k - 1) =~= s.skip(k));
        assert(s.take(k)[0] == s[0]);
        assert(s.take(k).len() == k);
        assert(json_of_creds(s.take(k)) == json_of_cred(s[0]) + (lit(",") + json_of_creds(
            s.take(k).drop_first(),
        )));
        assert(json_of_creds(s) == json_of_cred(s[0]) + (lit(",") + (json_of_creds(
            s.take(k).drop_first(),
        ) + (lit(",") + json_of_creds(s.skip(k))))));
        assert(json_of_cred(s[0]) + (lit(",") + (json_of_creds(s.take(k).drop_first()) + (lit(",")
            + json_of_creds(s.skip(k))))) =~= (json_of_cred(s[0]) + (lit(",") + json_of_creds(
            s.take(k).drop_first(),
        ))) + (lit(",") + json_of_creds(s.skip(k))));
    }
}

/// First-byte facts about the three tokens the ledger-list parser
/// distinguishes.
proof fn lemma_list_tokens()
    ensures
        lit("{\"credentials\":[").len() == 16,
        lit("]}").len() == 2,
        lit("]}")[0] == 93,
        lit(",").len() == 1,
        lit(",")[0] == 44,
        lit("{\"domain\":").len() == 10,
        lit("{\"domain\":")[0] == 123,
        lit("}").len() == 1,
{
    reveal_strlit("{\"credentials\":[");
    reveal_strlit("]}");
    reveal_strlit(",");
    reveal_strlit("{\"domain\":");
    reveal_strlit("}");
    vstd::utf8::is_ascii_chars_encode_utf8("{\"credentials\":["@);
    vstd::utf8::is_ascii_chars_encode_utf8("]}"@);
    vstd::utf8::is_ascii_chars_encode_utf8(","@);
    vstd::utf8::is_ascii_chars_encode_utf8("{\"domain\":"@);
    vstd::utf8::is_ascii_chars_encode_utf8("}"@);
}

/// An entry's rendering begins with its opening key.
proof fn lemma_cred_first_byte(buf: Seq<u8>, p: int, c: CredView)
    requires
        starts_at(buf, p, json_of_cred(c)),
    ensures
        json_of_cred(c).len() >= 10,
        p + 10 <= buf.len(),
        buf[p] == 123,
{
    lemma_list_tokens();
    lemma_starts_at_concat(buf, p, lit("{\"domain\":"), cred_tail1(c));
    lemma_starts_at_index(buf, p, lit("{\"domain\":"), 0);
}

/// The invariant the list parser maintains at the start of each entry:
/// for every ledger whose rendering fills the buffer, the accumulated
/// entries are its prefix and the rest of its rendering begins here.
pub open spec fn list_inv(buf: Seq<u8>, acc: Seq<CredView>, cur: int) -> bool {
    forall|sv: Seq<CredView>|
        #![trigger json_of_secret(sv)]
        buf == json_of_secret(sv) ==> acc.len() < sv.len() && acc == sv.take(acc.len() as int)
            && starts_at(buf, cur, json_of_creds(sv.skip(acc.len() as int)) + lit("]}")) && cur + (
        json_of_creds(sv.skip(acc.len() as int)) + lit("]}")).len() == buf.len()
}

/// Under the invariant, a matching ledger's next entry is rendered at the
/// current position.
proof fn lemma_inv_entry(buf: Seq<u8>, acc: Seq<CredView>, cur: int)
    requires
        list_inv(buf, acc, cur),
    ensures
        forall|sv: Seq<CredView>|
            #![trigger json_of_secret(sv)]
            buf == json_of_secret(sv) ==> starts_at(buf, cur, json_of_cred(sv[acc.len() as int])),
{
    let k = acc.len() as int;
    assert forall|sv: Seq<CredView>|
        #![trigger json_of_secret(sv)]
        buf == json_of_secret(sv) implies starts_at(buf, cur, json_of_cred(sv[k])) by {
        let rest = sv.skip(k);
        assert(rest.len() > 0);
        assert(rest[0] == sv[k]);
        lemma_starts_at_concat(buf, cur, json_of_creds(rest), lit("]}"));
        if rest.len() > 1 {
            lemma_starts_at_concat(
                buf,
                cur,
                json_of_cred(rest[0]),
                lit(",") + json_of_creds(rest.drop_first()),
            );
        }
    }
}

/// What follows a parsed entry under the invariant: the list either
/// continues with a comma or closes, depending on whether the matching
/// ledger has more entries.
proof fn lemma_after_entry_one(buf: Seq<u8>, cur: int, rest: Seq<CredView>, pc: int)
    requires
        rest.len() > 0,
        starts_at(buf, cur, json_of_creds(rest) + lit("]}")),
        cur + (json_of_creds(rest) + lit("]}")).len() == buf.len(),
        pc == cur + json_of_cred(rest[0]).len(),
    ensures
        rest.len() == 1 ==> starts_at(buf, pc, lit("]}")) && pc + 2 == buf.len(),
        rest.len() > 1 ==> starts_at(buf, pc, lit(",") + (json_of_creds(rest.drop_first()) + lit(
            "]}",
        ))) && pc + 1 + (json_of_creds(rest.drop_first()) + lit("]}")).len() == buf.len(),
{
    lemma_list_tokens();
    lemma_starts_at_concat(buf, cur, json_of_creds(rest), lit("]}"));
    if rest.len() == 1 {
        assert(json_of_creds(rest) == json_of_cred(rest[0]));
    } else {
        assert(json_of_creds(rest) == json_of_cred(rest[0]) + (lit(",") + json_of_creds(
            rest.drop_first(),
        )));
        assert((json_of_cred(rest[0]) + (lit(",") + json_of_creds(rest.drop_first()))) + lit("]}")
            =~= json_of_cred(rest[0]) + (lit(",") + (json_of_creds(rest.drop_first()) + lit(
            "]}",
        ))));
        lemma_starts_at_concat(
            buf,
            cur,
            json_of_cred(rest[0]),
            lit(",") + (json_of_creds(rest.drop_first()) + lit("]}")),
        );
    }
}

/// What follows a parsed entry under the invariant: the list either
/// continues with a comma or closes, depending on whether the matching
/// ledger has more entries.
proof fn lemma_inv_after_entry(buf: Seq<u8>, acc: Seq<CredView>, cur: int, cv: CredView, pc: int)
    requires
        list_inv(buf, acc, cur),
        forall|sv: Seq<CredView>|
            #![trigger json_of_secret(sv)]
            buf == json_of_secret(sv) ==> cv == sv[acc.len() as int] && pc == cur + json_of_cred(
                sv[acc.len() as int],
            ).len(),
    ensures
        forall|sv: Seq<CredView>|
            #![trigger json_of_secret(sv)]
            buf == json_of_secret(sv) ==> (if sv.len() == acc.len() + 1 {
                starts_at(buf, pc, lit("]}")) && pc + 2 == buf.len()
            } else {
                starts_at(
                    buf,
                    pc,
                    lit(",") + (json_of_creds(sv.skip(acc.len() as int + 1)) + lit("]}")),
                ) && pc + 1 + (json_of_creds(sv.skip(acc.len() as int + 1)) + lit("]}")).len()
                    == buf.len()
            }),
{
    let k = acc.len() as int;
    assert forall|sv: Seq<CredView>|
        #![trigger json_of_secret(sv)]
        buf == json_of_secret(sv) implies (if sv.len() == k + 1 {
        starts_at(buf, pc, lit("]}")) && pc + 2 == buf.len()
    } else {
        starts_at(buf, pc, lit(",") + (json_of_creds(sv.skip(k + 1)) + lit("]}"))) && pc + 1 + (
        json_of_creds(sv.skip(k + 1)) + lit("]}")).len() == buf.len()
    }) by {
        let rest = sv.skip(k);
        assert(rest.len() == sv.len() - k);
        assert(rest[0] == sv[k]);
        lemma_after_entry_one(buf, cur, rest, pc);
        if sv.len() != k + 1 {
            assert(rest.drop_first() =~= sv.skip(k + 1));
        }
    }
}

/// A comma after an entry re-establishes the invariant with the entry
/// appended.
proof fn lemma_inv_step(buf: Seq<u8>, acc: Seq<CredView>, cur: int, cv: CredView, pc: int, p2: int)
    requires
        list_inv(buf, acc, cur),
        forall|sv: Seq<CredView>|
            #![trigger json_of_secret(sv)]
            buf == json_of_secret(sv) ==> cv == sv[acc.len() as int] && pc == cur + json_of_cred(
                sv[acc.len() as int],
            ).len(),
        starts_at(buf, pc, lit(",")),
        lit(",").len() == 1,
        lit(",")[0] == 44,
        lit("]}")[0] == 93,
        lit("]}").len() == 2,
        p2 == pc + 1,
    ensures
        list_inv(buf, acc.push(cv), p2),
{
    let k = acc.len() as int;
    lemma_inv_after_entry(buf, acc, cur, cv, pc);
    assert forall|sv: Seq<CredView>|
        #![trigger json_of_secret(sv)]
        buf == json_of_secret(sv) implies acc.push(cv).len() < sv.len() && acc.push(cv) == sv.take(
        k + 1,
    ) && starts_at(buf, p2, json_of_creds(sv.skip(k + 1)) + lit("]}")) && p2 + (json_of_creds(
        sv.skip(k + 1),
    ) + lit("]}")).len() == buf.len() by {
        if sv.len() == k + 1 {
            lemma_starts_at_index(buf, pc, lit("]}"), 0);
            lemma_starts_at_index(buf, pc, lit(","), 0);
            assert(false);
        }
        lemma_starts_at_concat(buf, pc, lit(","), json_of_creds(sv.skip(k + 1)) + lit("]}"));
        assert(acc.push(cv) =~= sv.take(k + 1));
    }
}

/// A closing bracket after an entry identifies the whole matching ledger.
proof fn lemma_inv_close(buf: Seq<u8>, acc: Seq<CredView>, cur: int, cv: CredView, pc: int)
    requires
        list_inv(buf, acc, cur),
        forall|sv: Seq<CredView>|
            #![trigger json_of_secret(sv)]
            buf == json_of_secret(sv) ==> cv == sv[acc.len() as int] && pc == cur + json_of_cred(
                sv[acc.len() as int],
            ).len(),
        starts_at(buf, pc, lit("]}")),
        pc + 2 == buf.len(),
        lit(",").len() == 1,
        lit(",")[0] == 44,
        lit("]}")[0] == 93,
        lit("]}").len() == 2,
    ensures
        forall|sv: Seq<CredView>|
            #![trigger json_of_secret(sv)]
            buf == json_of_secret(sv) ==> sv == acc.push(cv),
{
    let k = acc.len() as int;
    lemma_inv_after_entry(buf, acc, cur, cv, pc);
    assert forall|sv: Seq<CredView>|
        #![trigger json_of_secret(sv)]
        buf == json_of_secret(sv) implies sv == acc.push(cv) by {
        if sv.len() != k + 1 {
            lemma_starts_at_index(buf, pc, lit(",") + (json_of_creds(sv.skip(k + 1)) + lit("]}")), 0);
            lemma_starts_at_index(buf, pc, lit("]}"), 0);
            assert(false);
        }
        assert(sv =~= acc.push(cv)) by {
            assert(acc == sv.take(k));
            assert(cv == sv[k]);
        }
    }
}

/// Reads a whole persisted ledger: returns `Some` exactly on the full
/// rendering of some ledger, and then returns that ledger.
#[verifier::rlimit(100)]
pub fn parse_secret(buf: &[u8]) -> (r: Option<SecretKeyState>)
    ensures
        r matches Some(s) ==> buf@ == json_of_secret(s@),
        forall|sv: Seq<CredView>|
            #![trigger json_of_secret(sv)]
            buf@ == json_of_secret(sv) ==> (r matches Some(s) && s@ == sv),
{
    proof {
        lemma_list_tokens();
        assert forall|sv: Seq<CredView>|
            #![trigger json_of_secret(sv)]
            buf@ == json_of_secret(sv) implies starts_at(buf@, 0, lit("{\"credentials\":["))
            && starts_at(buf@, 16, json_of_creds(sv) + lit("]}")) && 16 + (json_of_creds(sv) + lit(
            "]}",
        )).len() == buf@.len() by {
            assert(starts_at(buf@, 0, json_of_secret(sv))) by {
                assert(buf@.subrange(0, json_of_secret(sv).len() as int) =~= buf@);
            }
            lemma_starts_at_concat(
                buf@,
                0,
                lit("{\"credentials\":["),
                json_of_creds(sv) + lit("]}"),
            );
        }
    }
    let p0 = match expect_lit(buf, 0, "{\"credentials\":[") {
        Some(p) => p,
        None => {
            return None;
        },
    };
    // An empty ledger closes immediately.
    match expect_lit(buf, p0, "]}") {
        Some(pe) => {
            if pe == buf.len() {
                let s = SecretKeyState { credentials: Vec::new() };
                proof {
                    lemma_list_tokens();
                    assert(s@ =~= Seq::<CredView>::empty());
                    assert(json_of_creds(s@) == Seq::<u8>::empty());
                    assert(buf@ =~= lit("{\"credentials\":[") + (json_of_creds(s@) + lit("]}")))
                        by {
                        assert(buf@.subrange(0, 16) =~= lit("{\"credentials\":["));
                        assert(buf@.subrange(16, 18) =~= lit("]}"));
                        assert(buf@.len() == 18);
                    }
                    assert forall|sv: Seq<CredView>|
                        #![trigger json_of_secret(sv)]
                        buf@ == json_of_secret(sv) implies s@ == sv by {
                        if sv.len() > 0 {
                            lemma_starts_at_concat(buf@, 16, json_of_creds(sv), lit("]}"));
                            if sv.len() > 1 {
                                lemma_starts_at_concat(
                                    buf@,
                                    16,
                                    json_of_cred(sv[0]),
                                    lit(",") + json_of_creds(sv.drop_first()),
                                );
                            }
                            lemma_cred_first_byte(buf@, 16, sv[0]);
                            lemma_starts_at_index(buf@, 16, lit("]}"), 0);
                            assert(false);
                        }
                        assert(s@ =~= sv);
                    }
                }
                return Some(s);
            } else {
                proof {
                    lemma_list_tokens();
                    assert forall|sv: Seq<CredView>|
                        #![trigger json_of_secret(sv)]
                        buf@ != json_of_secret(sv) by {
                        if buf@ == json_of_secret(sv) {
                            if sv.len() > 0 {
                                lemma_starts_at_concat(buf@, 16, json_of_creds(sv), lit("]}"));
                                if sv.len() > 1 {
                                    lemma_starts_at_concat(
                                        buf@,
                                        16,
                                        json_of_cred(sv[0]),
                                        lit(",") + json_of_creds(sv.drop_first()),
                                    );
                                }
                                lemma_cred_first_byte(buf@, 16, sv[0]);
                                lemma_starts_at_index(buf@, 16, lit("]}"), 0);
                            } else {
                                assert(buf@.len() == 18);
                            }
                        }
                    }
                }
                return None;
            }
        },
        None => {
        },
    }
    let mut acc: Vec<Credentials> = Vec::new();
    let mut cur: usize = p0;
    let blen = buf.len();
    proof {
        lemma_list_tokens();
        assert(creds_view(acc@) =~= Seq::<CredView>::empty());
        assert(buf@.subrange(0, cur as int) =~= lit("{\"credentials\":[") + Seq::<u8>::empty());
        assert forall|sv: Seq<CredView>|
            #![trigger json_of_secret(sv)]
            buf@ == json_of_secret(sv) implies 0 < sv.len() && creds_view(acc@) == sv.take(0)
            && starts_at(buf@, cur as int, json_of_creds(sv.skip(0)) + lit("]}")) && cur + (
        json_of_creds(sv.skip(0)) + lit("]}")).len() == buf@.len() by {
            assert(sv.skip(0) =~= sv);
            if sv.len() == 0 {
                assert(json_of_creds(sv) == Seq::<u8>::empty());
                assert(Seq::<u8>::empty() + lit("]}") =~= lit("]}"));
                assert(starts_at(buf@, 16, lit("]}")));
                assert(false);
            }
            assert(sv.take(0) =~= creds_view(acc@));
        }
        assert(list_inv(buf@, creds_view(acc@), cur as int));
    }
    loop
        invariant
            blen == buf@.len(),
            16 <= cur <= blen,
            list_inv(buf@, creds_view(acc@), cur as int),
            buf@.subrange(0, cur as int) == lit("{\"credentials\":[") + (if acc@.len() == 0 {
                Seq::<u8>::empty()
            } else {
                json_of_creds(creds_view(acc@)) + lit(",")
            }),
        decreases blen - cur,
    {
        let ghost k = creds_view(acc@).len() as int;
        let ghost accv = creds_view(acc@);
        proof {
            lemma_inv_entry(buf@, accv, cur as int);
        }
        let (c, pc) = match parse_credential(buf, cur) {
            Some(t) => t,
            None => {
                return None;
            },
        };
        let ghost cv = c@;
        proof {
            lemma_list_tokens();
            assert forall|sv: Seq<CredView>|
                #![trigger json_of_secret(sv)]
                buf@ == json_of_secret(sv) implies cv == sv[k] && pc == cur + json_of_cred(
                sv[k],
            ).len() by {
                assert(starts_at(buf@, cur as int, json_of_cred(sv[k])));
            }
        }
        acc.push(c);
        proof {
            assert(creds_view(acc@) =~= accv.push(cv)) by {
                assert forall|x: int| 0 <= x < acc@.len() implies creds_view(acc@)[x] == accv.push(
                    cv,
                )[x] by {
                    assert(creds_view(acc@)[x] == acc@[x]@);
                    if x < acc@.len() - 1 {
                        assert(accv[x] == acc@.drop_last()[x]@);
                        assert(acc@.drop_last()[x] == acc@[x]);
                    }
                }
            }
        }
        // After an entry, either another entry follows a comma or the list
        // closes.
        match expect_lit(buf, pc, ",") {
            Some(p2) => {
                proof {
                    lemma_list_tokens();
                    lemma_inv_step(buf@, accv, cur as int, cv, pc as int, p2 as int);
                    // Soundness bookkeeping: the consumed prefix grew by one
                    // entry and a comma.
                    lemma_creds_snoc(accv, cv);
                    let whole = lit("{\"credentials\":[") + (json_of_creds(creds_view(acc@))
                        + lit(","));
                    assert(buf@.subrange(cur as int, pc as int) =~= json_of_cred(cv));
                    assert(buf@.subrange(pc as int, p2 as int) =~= lit(","));
                    assert(buf@.subrange(0, p2 as int) =~= buf@.subrange(0, cur as int)
                        + buf@.subrange(cur as int, pc as int) + buf@.subrange(
                        pc as int,
                        p2 as int,
                    ));
                    assert(buf@.subrange(0, p2 as int) =~= whole);
                }
                cur = p2;
            },
            None => {
                let pe = match expect_lit(buf, pc, "]}") {
                    Some(p) => p,
                    None => {
                        proof {
                            lemma_list_tokens();
                            lemma_inv_after_entry(buf@, accv, cur as int, cv, pc as int);
                            assert forall|sv: Seq<CredView>|
                                #![trigger json_of_secret(sv)]
                                buf@ != json_of_secret(sv) by {
                                if buf@ == json_of_secret(sv) {
                                    if sv.len() == k + 1 {
                                        assert(starts_at(buf@, pc as int, lit("]}")));
                                    } else {
                                        lemma_starts_at_concat(
                                            buf@,
                                            pc as int,
                                            lit(","),
                                            json_of_creds(sv.skip(k + 1)) + lit("]}"),
                                        );
                                        assert(starts_at(buf@, pc as int, lit(",")));
                                    }
                                }
                            }
                        }
                        return None;
                    },
                };
                if pe != buf.len() {
                    proof {
                        lemma_list_tokens();
                        lemma_inv_after_entry(buf@, accv, cur as int, cv, pc as int);
                        assert forall|sv: Seq<CredView>|
                            #![trigger json_of_secret(sv)]
                            buf@ != json_of_secret(sv) by {
                            if buf@ == json_of_secret(sv) {
                                if sv.len() == k + 1 {
                                    assert(pc + 2 == buf@.len());
                                } else {
                                    lemma_starts_at_index(
                                        buf@,
                                        pc as int,
                                        lit(",") + (json_of_creds(sv.skip(k + 1)) + lit("]}")),
                                        0,
                                    );
                                    lemma_starts_at_index(buf@, pc as int, lit("]}"), 0);
                                }
                            }
                        }
                    }
                    return None;
                }
                let s = SecretKeyState { credentials: acc };
                proof {
                    lemma_list_tokens();
                    lemma_inv_close(buf@, accv, cur as int, cv, pc as int);
                    // Soundness: the whole buffer is the rendering of the
                    // accumulated ledger.
                    lemma_creds_snoc(accv, cv);
                    assert(s@ == accv.push(cv));
                    assert(buf@.subrange(cur as int, pc as int) =~= json_of_cred(cv));
                    assert(buf@.subrange(pc as int, pe as int) =~= lit("]}"));
                    assert(buf@ =~= buf@.subrange(0, cur as int) + buf@.subrange(
                        cur as int,
                        pc as int,
                    ) + buf@.subrange(pc as int, pe as int));
                    assert(buf@ =~= lit("{\"credentials\":[") + (json_of_creds(s@) + lit("]}")));
                    assert(buf@ == json_of_secret(s@));
                    assert forall|sv: Seq<CredView>|
                        #![trigger json_of_secret(sv)]
                        buf@ == json_of_secret(sv) implies s@ == sv by {
                    }
                }
                return Some(s);
            },
        }
    }
}


/// Byte facts about the KDF record's tokens.
proof fn lemma_kdf_tokens()
    ensures
        lit("{\"alg\":").len() == 7,
        lit(",\"ver\":").len() == 7,
        lit(",\"m_cost\":").len() == 10,
        lit(",\"t_cost\":").len() == 10,
        lit(",\"t_cost\":")[0] == 44,
        lit(",\"p_cost\":").len() == 10,
        lit(",\"p_cost\":")[0] == 44,
        lit(",\"salt\":").len() == 8,
        lit(",\"salt\":")[0] == 44,
        lit("Argon2d").len() == 7,
        lit("Argon2i").len() == 7,
        lit("Argon2id").len() == 8,
        lit("Argon2d")[6] == 100,
        lit("Argon2i")[6] == 105,
        lit("0x10").len() == 4,
        lit("0x13").len() == 4,
        lit("0x10")[3] == 48,
        lit("0x13")[3] == 51,
        lit("}").len() == 1,
        lit("}")[0] == 125,
{
    reveal_strlit("{\"alg\":");
    reveal_strlit(",\"ver\":");
    reveal_strlit(",\"m_cost\":");
    reveal_strlit(",\"t_cost\":");
    reveal_strlit(",\"p_cost\":");
    reveal_strlit(",\"salt\":");
    reveal_strlit("Argon2d");
    reveal_strlit("Argon2i");
    reveal_strlit("Argon2id");
    reveal_strlit("0x10");
    reveal_strlit("0x13");
    reveal_strlit("}");
    vstd::utf8::is_ascii_chars_encode_utf8("{\"alg\":"@);
    vstd::utf8::is_ascii_chars_encode_utf8(",\"ver\":"@);
    vstd::utf8::is_ascii_chars_encode_utf8(",\"m_cost\":"@);
    vstd::utf8::is_ascii_chars_encode_utf8(",\"t_cost\":"@);
    vstd::utf8::is_ascii_chars_encode_utf8(",\"p_cost\":"@);
    vstd::utf8::is_ascii_chars_encode_utf8(",\"salt\":"@);
    vstd::utf8::is_ascii_chars_encode_utf8("Argon2d"@);
    vstd::utf8::is_ascii_chars_encode_utf8("Argon2i"@);
    vstd::utf8::is_ascii_chars_encode_utf8("Argon2id"@);
    vstd::utf8::is_ascii_chars_encode_utf8("0x10"@);
    vstd::utf8::is_ascii_chars_encode_utf8("0x13"@);
    vstd::utf8::is_ascii_chars_encode_utf8("}"@);
}

/// Copies a 32-byte vector into an array.
fn salt_array(v: &Vec<u8>) -> (r: [u8; 32])
    requires
        v@.len() == 32,
    ensures
        r@ == v@,
{
    let mut arr = [0u8; 32];
    let mut j: usize = 0;
    while j < 32
        invariant
            v@.len() == 32,
            j <= 32,
            forall|x: int| 0 <= x < j ==> arr@[x] == v@[x],
        decreases 32 - j,
    {
        arr[j] = v[j];
        j = j + 1;
    }
    proof {
        assert(arr@ =~= v@);
    }
    arr
}

/// Copies a 12-byte vector into an array.
fn nonce_array(v: &Vec<u8>) -> (r: [u8; 12])
    requires
        v@.len() == 12,
    ensures
        r@ == v@,
{
    let mut arr = [0u8; 12];
    let mut j: usize = 0;
    while j < 12
        invariant
            v@.len() == 12,
            j <= 12,
            forall|x: int| 0 <= x < j ==> arr@[x] == v@[x],
        decreases 12 - j,
    {
        arr[j] = v[j];
        j = j + 1;
    }
    proof {
        assert(arr@ =~= v@);
    }
    arr
}

/// Reads a KDF parameter record at `pos`.
#[verifier::rlimit(100)]
fn parse_kdf(buf: &[u8], pos: usize) -> (r: Option<(Kdf, usize)>)
    ensures
        r matches Some(t) ==> starts_at(buf@, pos as int, json_of_kdf(t.0)) && t.1 == pos
            + json_of_kdf(t.0).len(),
        forall|k: Kdf|
            #![trigger json_of_kdf(k)]
            starts_at(buf@, pos as int, json_of_kdf(k)) ==> (r matches Some(t) && t.0 == k && t.1
                == pos + json_of_kdf(k).len()),
{
    proof {
        lemma_kdf_tokens();
            reveal(json_of_kdf);
            reveal(kdf_tail1);
            reveal(kdf_tail2);
            reveal(kdf_tail3);
            reveal(kdf_tail4);
            reveal(kdf_tail5);
            reveal(kdf_tail6);
            reveal(kdf_tail7);
            reveal(kdf_tail8);
            reveal(kdf_tail9);
            reveal(kdf_tail10);
        assert forall|k: Kdf|
            #![trigger json_of_kdf(k)]
            starts_at(buf@, pos as int, json_of_kdf(k)) implies starts_at(
            buf@,
            pos as int,
            lit("{\"alg\":"),
        ) by {
            lemma_starts_at_concat(buf@, pos as int, lit("{\"alg\":"), kdf_tail1(k));
        }
    }
    let p1 = match expect_lit(buf, pos, "{\"alg\":") {
        Some(p) => p,
        None => {
            return None;
        },
    };
    proof {
        lemma_kdf_tokens();
            reveal(json_of_kdf);
            reveal(kdf_tail1);
            reveal(kdf_tail2);
            reveal(kdf_tail3);
            reveal(kdf_tail4);
            reveal(kdf_tail5);
            reveal(kdf_tail6);
            reveal(kdf_tail7);
            reveal(kdf_tail8);
            reveal(kdf_tail9);
            reveal(kdf_tail10);
        assert forall|k: Kdf|
            #![trigger json_of_kdf(k)]
            starts_at(buf@, pos as int, json_of_kdf(k)) implies starts_at(
            buf@,
            p1 as int,
            kdf_tail1(k),
        ) && starts_at(buf@, p1 as int, jstr(alg_lit(k.alg))) by {
            lemma_starts_at_concat(buf@, pos as int, lit("{\"alg\":"), kdf_tail1(k));
            lemma_starts_at_concat(buf@, p1 as int, jstr(alg_lit(k.alg)), kdf_tail2(k));
        }
    }
    let (av, p2) = match parse_jstr(buf, p1) {
        Some(t) => t,
        None => {
            return None;
        },
    };
    let alg: KdfAlgorithm;
    if bytes_eq(av.as_slice(), "Argon2d".as_bytes()) {
        alg = KdfAlgorithm::Argon2d;
    } else if bytes_eq(av.as_slice(), "Argon2i".as_bytes()) {
        alg = KdfAlgorithm::Argon2i;
    } else if bytes_eq(av.as_slice(), "Argon2id".as_bytes()) {
        alg = KdfAlgorithm::Argon2id;
    } else {
        proof {
            lemma_kdf_tokens();
            reveal(json_of_kdf);
            reveal(kdf_tail1);
            reveal(kdf_tail2);
            reveal(kdf_tail3);
            reveal(kdf_tail4);
            reveal(kdf_tail5);
            reveal(kdf_tail6);
            reveal(kdf_tail7);
            reveal(kdf_tail8);
            reveal(kdf_tail9);
            reveal(kdf_tail10);
            assert forall|k: Kdf|
                #![trigger json_of_kdf(k)]
                !starts_at(buf@, pos as int, json_of_kdf(k)) by {
                if starts_at(buf@, pos as int, json_of_kdf(k)) {
                    assert(av@ == alg_lit(k.alg));
                }
            }
        }
        return None;
    }
    proof {
        lemma_kdf_tokens();
            reveal(json_of_kdf);
            reveal(kdf_tail1);
            reveal(kdf_tail2);
            reveal(kdf_tail3);
            reveal(kdf_tail4);
            reveal(kdf_tail5);
            reveal(kdf_tail6);
            reveal(kdf_tail7);
            reveal(kdf_tail8);
            reveal(kdf_tail9);
            reveal(kdf_tail10);
        assert forall|k: Kdf|
            #![trigger json_of_kdf(k)]
            starts_at(buf@, pos as int, json_of_kdf(k)) implies alg == k.alg && starts_at(
            buf@,
            p2 as int,
            kdf_tail2(k),
        ) && starts_at(buf@, p2 as int, lit(",\"ver\":")) by {
            assert(av@ == alg_lit(k.alg));
            assert(p2 == p1 + jstr(alg_lit(k.alg)).len());
            lemma_starts_at_concat(buf@, p1 as int, jstr(alg_lit(k.alg)), kdf_tail2(k));
            lemma_starts_at_concat(buf@, p2 as int, lit(",\"ver\":"), kdf_tail3(k));
        }
    }
    let p3 = match expect_lit(buf, p2, ",\"ver\":") {
        Some(p) => p,
        None => {
            return None;
        },
    };
    proof {
        lemma_kdf_tokens();
            reveal(json_of_kdf);
            reveal(kdf_tail1);
            reveal(kdf_tail2);
            reveal(kdf_tail3);
            reveal(kdf_tail4);
            reveal(kdf_tail5);
            reveal(kdf_tail6);
            reveal(kdf_tail7);
            reveal(kdf_tail8);
            reveal(kdf_tail9);
            reveal(kdf_tail10);
        assert forall|k: Kdf|
            #![trigger json_of_kdf(k)]
            starts_at(buf@, pos as int, json_of_kdf(k)) implies starts_at(
            buf@,
            p3 as int,
            kdf_tail3(k),
        ) && starts_at(buf@, p3 as int, jstr(ver_lit(k.ver))) by {
            lemma_starts_at_concat(buf@, p2 as int, lit(",\"ver\":"), kdf_tail3(k));
            lemma_starts_at_concat(buf@, p3 as int, jstr(ver_lit(k.ver)), kdf_tail4(k));
        }
    }
    let (vv, p4) = match parse_jstr(buf, p3) {
        Some(t) => t,
        None => {
            return None;
        },
    };
    let ver: KdfVersion;
    if bytes_eq(vv.as_slice(), "0x10".as_bytes()) {
        ver = KdfVersion::V0x10;
    } else if bytes_eq(vv.as_slice(), "0x13".as_bytes()) {
        ver = KdfVersion::V0x13;
    } else {
        proof {
            lemma_kdf_tokens();
            reveal(json_of_kdf);
            reveal(kdf_tail1);
            reveal(kdf_tail2);
            reveal(kdf_tail3);
            reveal(kdf_tail4);
            reveal(kdf_tail5);
            reveal(kdf_tail6);
            reveal(kdf_tail7);
            reveal(kdf_tail8);
            reveal(kdf_tail9);
            reveal(kdf_tail10);
            assert forall|k: Kdf|
                #![trigger json_of_kdf(k)]
                !starts_at(buf@, pos as int, json_of_kdf(k)) by {
                if starts_at(buf@, pos as int, json_of_kdf(k)) {
                    assert(vv@ == ver_lit(k.ver));
                }
            }
        }
        return None;
    }
    proof {
        lemma_kdf_tokens();
            reveal(json_of_kdf);
            reveal(kdf_tail1);
            reveal(kdf_tail2);
            reveal(kdf_tail3);
            reveal(kdf_tail4);
            reveal(kdf_tail5);
            reveal(kdf_tail6);
            reveal(kdf_tail7);
            reveal(kdf_tail8);
            reveal(kdf_tail9);
            reveal(kdf_tail10);
        assert forall|k: Kdf|
            #![trigger json_of_kdf(k)]
            starts_at(buf@, pos as int, json_of_kdf(k)) implies ver == k.ver && starts_at(
            buf@,
            p4 as int,
            kdf_tail4(k),
        ) && starts_at(buf@, p4 as int, lit(",\"m_cost\":")) by {
            assert(vv@ == ver_lit(k.ver));
            assert(p4 == p3 + jstr(ver_lit(k.ver)).len());
            lemma_starts_at_concat(buf@, p3 as int, jstr(ver_lit(k.ver)), kdf_tail4(k));
            lemma_starts_at_concat(buf@, p4 as int, lit(",\"m_cost\":"), kdf_tail5(k));
        }
    }
    let p5 = match expect_lit(buf, p4, ",\"m_cost\":") {
        Some(p) => p,
        None => {
            return None;
        },
    };
    proof {
        lemma_kdf_tokens();
            reveal(json_of_kdf);
            reveal(kdf_tail1);
            reveal(kdf_tail2);
            reveal(kdf_tail3);
            reveal(kdf_tail4);
            reveal(kdf_tail5);
            reveal(kdf_tail6);
            reveal(kdf_tail7);
            reveal(kdf_tail8);
            reveal(kdf_tail9);
            reveal(kdf_tail10);
        assert forall|k: Kdf|
            #![trigger json_of_kdf(k)]
            starts_at(buf@, pos as int, json_of_kdf(k)) implies starts_at(
            buf@,
            p5 as int,
            kdf_tail5(k),
        ) && starts_at(buf@, p5 as int, dec(k.m_cost as int)) && (p5 + dec(k.m_cost as int).len()
            == buf@.len() || !is_digit(buf@[p5 + dec(k.m_cost as int).len()])) by {
            lemma_starts_at_concat(buf@, p4 as int, lit(",\"m_cost\":"), kdf_tail5(k));
            lemma_starts_at_concat(buf@, p5 as int, dec(k.m_cost as int), kdf_tail6(k));
            lemma_starts_at_concat(
                buf@,
                p5 + dec(k.m_cost as int).len(),
                lit(",\"t_cost\":"),
                kdf_tail7(k),
            );
            lemma_starts_at_index(buf@, p5 + dec(k.m_cost as int).len(), lit(",\"t_cost\":"), 0);
        }
    }
    let (m_cost, p6) = match parse_dec_u32(buf, p5) {
        Some(t) => t,
        None => {
            return None;
        },
    };
    proof {
        lemma_kdf_tokens();
            reveal(json_of_kdf);
            reveal(kdf_tail1);
            reveal(kdf_tail2);
            reveal(kdf_tail3);
            reveal(kdf_tail4);
            reveal(kdf_tail5);
            reveal(kdf_tail6);
            reveal(kdf_tail7);
            reveal(kdf_tail8);
            reveal(kdf_tail9);
            reveal(kdf_tail10);
        assert forall|k: Kdf|
            #![trigger json_of_kdf(k)]
            starts_at(buf@, pos as int, json_of_kdf(k)) implies m_cost == k.m_cost && starts_at(
            buf@,
            p6 as int,
            kdf_tail6(k),
        ) && starts_at(buf@, p6 as int, lit(",\"t_cost\":")) by {
            assert(dec(k.m_cost as u32 as int) == dec(k.m_cost as int));
            assert(m_cost == k.m_cost && p6 == p5 + dec(k.m_cost as int).len());
            lemma_starts_at_concat(buf@, p5 as int, dec(k.m_cost as int), kdf_tail6(k));
            lemma_starts_at_concat(buf@, p6 as int, lit(",\"t_cost\":"), kdf_tail7(k));
        }
    }
    let p7 = match expect_lit(buf, p6, ",\"t_cost\":") {
        Some(p) => p,
        None => {
            return None;
        },
    };
    proof {
        lemma_kdf_tokens();
            reveal(json_of_kdf);
            reveal(kdf_tail1);
            reveal(kdf_tail2);
            reveal(kdf_tail3);
            reveal(kdf_tail4);
            reveal(kdf_tail5);
            reveal(kdf_tail6);
            reveal(kdf_tail7);
            reveal(kdf_tail8);
            reveal(kdf_tail9);
            reveal(kdf_tail10);
        assert forall|k: Kdf|
            #![trigger json_of_kdf(k)]
            starts_at(buf@, pos as int, json_of_kdf(k)) implies starts_at(
            buf@,
            p7 as int,
            kdf_tail7(k),
        ) && starts_at(buf@, p7 as int, dec(k.t_cost as int)) && (p7 + dec(k.t_cost as int).len()
            == buf@.len() || !is_digit(buf@[p7 + dec(k.t_cost as int).len()])) by {
            lemma_starts_at_concat(buf@, p6 as int, lit(",\"t_cost\":"), kdf_tail7(k));
            lemma_starts_at_concat(buf@, p7 as int, dec(k.t_cost as int), kdf_tail8(k));
            lemma_starts_at_concat(
                buf@,
                p7 + dec(k.t_cost as int).len(),
                lit(",\"p_cost\":"),
                kdf_tail9(k),
            );
            lemma_starts_at_index(buf@, p7 + dec(k.t_cost as int).len(), lit(",\"p_cost\":"), 0);
        }
    }
    let (t_cost, p8) = match parse_dec_u32(buf, p7) {
        Some(t) => t,
        None => {
            return None;
        },
    };
    proof {
        lemma_kdf_tokens();
            reveal(json_of_kdf);
            reveal(kdf_tail1);
            reveal(kdf_tail2);
            reveal(kdf_tail3);
            reveal(kdf_tail4);
            reveal(kdf_tail5);
            reveal(kdf_tail6);
            reveal(kdf_tail7);
            reveal(kdf_tail8);
            reveal(kdf_tail9);
            reveal(kdf_tail10);
        assert forall|k: Kdf|
            #![trigger json_of_kdf(k)]
            starts_at(buf@, pos as int, json_of_kdf(k)) implies t_cost == k.t_cost && starts_at(
            buf@,
            p8 as int,
            kdf_tail8(k),
        ) && starts_at(buf@, p8 as int, lit(",\"p_cost\":")) by {
            assert(dec(k.t_cost as u32 as int) == dec(k.t_cost as int));
            assert(t_cost == k.t_cost && p8 == p7 + dec(k.t_cost as int).len());
            lemma_starts_at_concat(buf@, p7 as int, dec(k.t_cost as int), kdf_tail8(k));
            lemma_starts_at_concat(buf@, p8 as int, lit(",\"p_cost\":"), kdf_tail9(k));
        }
    }
    let p9 = match expect_lit(buf, p8, ",\"p_cost\":") {
        Some(p) => p,
        None => {
            return None;
        },
    };
    proof {
        lemma_kdf_tokens();
            reveal(json_of_kdf);
            reveal(kdf_tail1);
            reveal(kdf_tail2);
            reveal(kdf_tail3);
            reveal(kdf_tail4);
            reveal(kdf_tail5);
            reveal(kdf_tail6);
            reveal(kdf_tail7);
            reveal(kdf_tail8);
            reveal(kdf_tail9);
            reveal(kdf_tail10);
        assert forall|k: Kdf|
            #![trigger json_of_kdf(k)]
            starts_at(buf@, pos as int, json_of_kdf(k)) implies starts_at(
            buf@,
            p9 as int,
            kdf_tail9(k),
        ) && starts_at(buf@, p9 as int, dec(k.p_cost as int)) && (p9 + dec(k.p_cost as int).len()
            == buf@.len() || !is_digit(buf@[p9 + dec(k.p_cost as int).len()])) by {
            lemma_starts_at_concat(buf@, p8 as int, lit(",\"p_cost\":"), kdf_tail9(k));
            lemma_starts_at_concat(buf@, p9 as int, dec(k.p_cost as int), kdf_tail10(k));
            lemma_starts_at_concat(
                buf@,
                p9 + dec(k.p_cost as int).len(),
                lit(",\"salt\":"),
                jstr(b64_ascii(k.salt@)) + lit("}"),
            );
            lemma_starts_at_index(buf@, p9 + dec(k.p_cost as int).len(), lit(",\"salt\":"), 0);
        }
    }
    let (p_cost, p10) = match parse_dec_u32(buf, p9) {
        Some(t) => t,
        None => {
            return None;
        },
    };
    proof {
        lemma_kdf_tokens();
            reveal(json_of_kdf);
            reveal(kdf_tail1);
            reveal(kdf_tail2);
            reveal(kdf_tail3);
            reveal(kdf_tail4);
            reveal(kdf_tail5);
            reveal(kdf_tail6);
            reveal(kdf_tail7);
            reveal(kdf_tail8);
            reveal(kdf_tail9);
            reveal(kdf_tail10);
        assert forall|k: Kdf|
            #![trigger json_of_kdf(k)]
            starts_at(buf@, pos as int, json_of_kdf(k)) implies p_cost == k.p_cost && starts_at(
            buf@,
            p10 as int,
            kdf_tail10(k),
        ) && starts_at(buf@, p10 as int, lit(",\"salt\":")) by {
            assert(dec(k.p_cost as u32 as int) == dec(k.p_cost as int));
            assert(p_cost == k.p_cost && p10 == p9 + dec(k.p_cost as int).len());
            lemma_starts_at_concat(buf@, p9 as int, dec(k.p_cost as int), kdf_tail10(k));
            lemma_starts_at_concat(
                buf@,
                p10 as int,
                lit(",\"salt\":"),
                jstr(b64_ascii(k.salt@)) + lit("}"),
            );
        }
    }
    let p11 = match expect_lit(buf, p10, ",\"salt\":") {
        Some(p) => p,
        None => {
            return None;
        },
    };
    proof {
        lemma_kdf_tokens();
            reveal(json_of_kdf);
            reveal(kdf_tail1);
            reveal(kdf_tail2);
            reveal(kdf_tail3);
            reveal(kdf_tail4);
            reveal(kdf_tail5);
            reveal(kdf_tail6);
            reveal(kdf_tail7);
            reveal(kdf_tail8);
            reveal(kdf_tail9);
            reveal(kdf_tail10);
        assert forall|k: Kdf|
            #![trigger json_of_kdf(k)]
            starts_at(buf@, pos as int, json_of_kdf(k)) implies starts_at(
            buf@,
            p11 as int,
            jstr(b64_ascii(k.salt@)) + lit("}"),
        ) && starts_at(buf@, p11 as int, jstr(b64_ascii(k.salt@))) by {
            lemma_starts_at_concat(
                buf@,
                p10 as int,
                lit(",\"salt\":"),
                jstr(b64_ascii(k.salt@)) + lit("}"),
            );
            lemma_starts_at_concat(buf@, p11 as int, jstr(b64_ascii(k.salt@)), lit("}"));
        }
    }
    let (sv, p12) = match parse_jstr(buf, p11) {
        Some(t) => t,
        None => {
            return None;
        },
    };
    let salt_vec = match b64_decode(sv.as_slice()) {
        Ok(v) => v,
        Err(()) => {
            proof {
                assert forall|k: Kdf|
                    #![trigger json_of_kdf(k)]
                    !starts_at(buf@, pos as int, json_of_kdf(k)) by {
                    if starts_at(buf@, pos as int, json_of_kdf(k)) {
                        assert(sv@ == b64_ascii(k.salt@));
                    }
                }
            }
            return None;
        },
    };
    if salt_vec.len() != 32 {
        proof {
            assert forall|k: Kdf|
                #![trigger json_of_kdf(k)]
                !starts_at(buf@, pos as int, json_of_kdf(k)) by {
                if starts_at(buf@, pos as int, json_of_kdf(k)) {
                    assert(sv@ == b64_ascii(k.salt@));
                    lemma_b64_injective(salt_vec@, k.salt@);
                }
            }
        }
        return None;
    }
    let salt = salt_array(&salt_vec);
    proof {
        lemma_kdf_tokens();
            reveal(json_of_kdf);
            reveal(kdf_tail1);
            reveal(kdf_tail2);
            reveal(kdf_tail3);
            reveal(kdf_tail4);
            reveal(kdf_tail5);
            reveal(kdf_tail6);
            reveal(kdf_tail7);
            reveal(kdf_tail8);
            reveal(kdf_tail9);
            reveal(kdf_tail10);
        assert forall|k: Kdf|
            #![trigger json_of_kdf(k)]
            starts_at(buf@, pos as int, json_of_kdf(k)) implies salt@ == k.salt@ && starts_at(
            buf@,
            p12 as int,
            lit("}"),
        ) by {
            assert(sv@ == b64_ascii(k.salt@));
            assert(p12 == p11 + jstr(b64_ascii(k.salt@)).len());
            lemma_b64_injective(salt_vec@, k.salt@);
            lemma_starts_at_concat(buf@, p11 as int, jstr(b64_ascii(k.salt@)), lit("}"));
        }
    }
    let p13 = match expect_lit(buf, p12, "}") {
        Some(p) => p,
        None => {
            return None;
        },
    };
    let kdf = Kdf { alg, ver, m_cost, t_cost, p_cost, salt };
    proof {
        lemma_kdf_tokens();
            reveal(json_of_kdf);
            reveal(kdf_tail1);
            reveal(kdf_tail2);
            reveal(kdf_tail3);
            reveal(kdf_tail4);
            reveal(kdf_tail5);
            reveal(kdf_tail6);
            reveal(kdf_tail7);
            reveal(kdf_tail8);
            reveal(kdf_tail9);
            reveal(kdf_tail10);
        lemma_starts_at_concat(buf@, p11 as int, jstr(b64_ascii(kdf.salt@)), lit("}"));
        lemma_starts_at_concat(
            buf@,
            p10 as int,
            lit(",\"salt\":"),
            jstr(b64_ascii(kdf.salt@)) + lit("}"),
        );
        lemma_starts_at_concat(buf@, p9 as int, dec(kdf.p_cost as int), kdf_tail10(kdf));
        lemma_starts_at_concat(buf@, p8 as int, lit(",\"p_cost\":"), kdf_tail9(kdf));
        lemma_starts_at_concat(buf@, p7 as int, dec(kdf.t_cost as int), kdf_tail8(kdf));
        lemma_starts_at_concat(buf@, p6 as int, lit(",\"t_cost\":"), kdf_tail7(kdf));
        lemma_starts_at_concat(buf@, p5 as int, dec(kdf.m_cost as int), kdf_tail6(kdf));
        lemma_starts_at_concat(buf@, p4 as int, lit(",\"m_cost\":"), kdf_tail5(kdf));
        lemma_starts_at_concat(buf@, p3 as int, jstr(ver_lit(kdf.ver)), kdf_tail4(kdf));
        lemma_starts_at_concat(buf@, p2 as int, lit(",\"ver\":"), kdf_tail3(kdf));
        lemma_starts_at_concat(buf@, p1 as int, jstr(alg_lit(kdf.alg)), kdf_tail2(kdf));
        lemma_starts_at_concat(buf@, pos as int, lit("{\"alg\":"), kdf_tail1(kdf));
        assert(salt@ == salt_vec@);
        assert(sv@ == b64_ascii(kdf.salt@));
        assert(av@ == alg_lit(kdf.alg));
        assert(vv@ == ver_lit(kdf.ver));
        assert(starts_at(buf@, pos as int, json_of_kdf(kdf)));
        assert forall|k: Kdf|
            #![trigger json_of_kdf(k)]
            starts_at(buf@, pos as int, json_of_kdf(k)) implies kdf == k && p13 == pos
            + json_of_kdf(k).len() by {
            assert(salt@ == k.salt@);
            assert(salt =~= k.salt);
            assert(kdf.alg == k.alg && kdf.ver == k.ver && kdf.m_cost == k.m_cost && kdf.t_cost
                == k.t_cost && kdf.p_cost == k.p_cost && kdf.salt == k.salt);
        }
    }
    Some((kdf, p13))
}


/// The rendering of the record up to and including the nonce key.
pub open spec fn enc_head(fp: Seq<char>, k: Kdf) -> Seq<u8> {
    lit("{\"public\":{\"fingerprint\":") + (jstr(encode_utf8(fp)) + (lit(",\"kdf\":") + (
    json_of_kdf(k) + lit("},\"secret\":{\"alg\":\"AES-GCM-256\",\"nonce\":"))))
}

/// A record's rendering splits into its head and the enveloped fields.
proof fn lemma_enc_split(e: EncView)
    ensures
        json_of_enc(e) == enc_head(e.fingerprint, e.kdf) + enc_tail5(e),
{
    reveal(enc_tail1);
    reveal(enc_tail2);
    reveal(enc_tail3);
    reveal(enc_tail4);
    reveal(enc_tail5);
    reveal(enc_tail6);
    assert(json_of_enc(e) =~= enc_head(e.fingerprint, e.kdf) + enc_tail5(e));
}

/// Serializes the KDF parameters.
#[verifier::rlimit(100)]
fn kdf_to_json(k: &Kdf, out: &mut Vec<u8>)
    ensures
        final(out)@ == old(out)@ + json_of_kdf(*k),
{
    let alg_name: &str = match k.alg {
        KdfAlgorithm::Argon2d => "Argon2d",
        KdfAlgorithm::Argon2i => "Argon2i",
        KdfAlgorithm::Argon2id => "Argon2id",
    };
    let ver_name: &str = match k.ver {
        KdfVersion::V0x10 => "0x10",
        KdfVersion::V0x13 => "0x13",
    };
    proof {
        assert(alg_name.spec_bytes() == alg_lit(k.alg));
        assert(ver_name.spec_bytes() == ver_lit(k.ver));
    }
    push_lit(out, "{\"alg\":");
    push_jstr(out, alg_name.as_bytes());
    push_lit(out, ",\"ver\":");
    push_jstr(out, ver_name.as_bytes());
    push_lit(out, ",\"m_cost\":");
    push_dec_u32(k.m_cost, out);
    push_lit(out, ",\"t_cost\":");
    push_dec_u32(k.t_cost, out);
    push_lit(out, ",\"p_cost\":");
    push_dec_u32(k.p_cost, out);
    push_lit(out, ",\"salt\":");
    let salt_b64 = b64_encode(k.salt.as_slice());
    push_jstr(out, salt_b64.as_slice());
    push_lit(out, "}");
    proof {
        reveal(json_of_kdf);
        reveal(kdf_tail1);
        reveal(kdf_tail2);
        reveal(kdf_tail3);
        reveal(kdf_tail4);
        reveal(kdf_tail5);
        reveal(kdf_tail6);
        reveal(kdf_tail7);
        reveal(kdf_tail8);
        reveal(kdf_tail9);
        reveal(kdf_tail10);
        let base = old(out)@;
        let w1 = lit("{\"alg\":");
        let w2 = jstr(alg_lit(k.alg));
        let w3 = lit(",\"ver\":");
        let w4 = jstr(ver_lit(k.ver));
        let w5 = lit(",\"m_cost\":");
        let w6 = dec(k.m_cost as int);
        let w7 = lit(",\"t_cost\":");
        let w8 = dec(k.t_cost as int);
        let w9 = lit(",\"p_cost\":");
        let w10 = dec(k.p_cost as int);
        let w11 = lit(",\"salt\":");
        let w12 = jstr(b64_ascii(k.salt@));
        let w13 = lit("}");
        let t12 = w12 + w13;
        let t11 = w11 + t12;
        let t10 = w10 + t11;
        let t9 = w9 + t10;
        let t8 = w8 + t9;
        let t7 = w7 + t8;
        let t6 = w6 + t7;
        let t5 = w5 + t6;
        let t4 = w4 + t5;
        let t3 = w3 + t4;
        let t2 = w2 + t3;
        let t1 = w1 + t2;
        assert(t1 == json_of_kdf(*k));
        let a1 = base + w1;
        let a2 = a1 + w2;
        let a3 = a2 + w3;
        let a4 = a3 + w4;
        let a5 = a4 + w5;
        let a6 = a5 + w6;
        let a7 = a6 + w7;
        let a8 = a7 + w8;
        let a9 = a8 + w9;
        let a10 = a9 + w10;
        let a11 = a10 + w11;
        let a12 = a11 + w12;
        let a13 = a12 + w13;
        assert(final(out)@ == a13);
        lemma_concat_assoc(a11, w12, w13);
        lemma_concat_assoc(a10, w11, t12);
        lemma_concat_assoc(a9, w10, t11);
        lemma_concat_assoc(a8, w9, t10);
        lemma_concat_assoc(a7, w8, t9);
        lemma_concat_assoc(a6, w7, t8);
        lemma_concat_assoc(a5, w6, t7);
        lemma_concat_assoc(a4, w5, t6);
        lemma_concat_assoc(a3, w4, t5);
        lemma_concat_assoc(a2, w3, t4);
        lemma_concat_assoc(a1, w2, t3);
        lemma_concat_assoc(base, w1, t2);
        assert(final(out)@ == base + t1);
    }
}

/// Serializes the whole record to its persisted bytes.
#[verifier::rlimit(100)]
pub fn encrypted_to_json(e: &crate::state::EncryptedKeyState) -> (r: Vec<u8>)
    requires
        e.secret.ciphertext_spec().len() <= usize::MAX / 8,
    ensures
        r@ == json_of_enc(e@),
{
    let mut out: Vec<u8> = Vec::new();
    push_lit(&mut out, "{\"public\":{\"fingerprint\":");
    push_jstr(&mut out, e.public.fingerprint.as_str().as_bytes());
    push_lit(&mut out, ",\"kdf\":");
    kdf_to_json(&e.public.kdf, &mut out);
    push_lit(&mut out, "},\"secret\":{\"alg\":\"AES-GCM-256\",\"nonce\":");
    proof {
        let w1 = lit("{\"public\":{\"fingerprint\":");
        let w2 = jstr(encode_utf8(e@.fingerprint));
        let w3 = lit(",\"kdf\":");
        let w4 = json_of_kdf(e@.kdf);
        let w5 = lit("},\"secret\":{\"alg\":\"AES-GCM-256\",\"nonce\":");
        let a1 = Seq::<u8>::empty() + w1;
        let a2 = a1 + w2;
        let a3 = a2 + w3;
        let a4 = a3 + w4;
        let a5 = a4 + w5;
        assert(out@ == a5);
        lemma_concat_assoc(a3, w4, w5);
        lemma_concat_assoc(a2, w3, w4 + w5);
        lemma_concat_assoc(a1, w2, w3 + (w4 + w5));
        assert(a1 =~= w1);
        assert(out@ == w1 + (w2 + (w3 + (w4 + w5))));
        assert(out@ == enc_head(e@.fingerprint, e@.kdf));
    }
    let (_alg, nonce, ciphered) = e.secret.parts();
    let nonce_b64 = b64_encode(nonce.as_slice());
    push_jstr(&mut out, nonce_b64.as_slice());
    push_lit(&mut out, ",\"ciphered\":");
    let ct_b64 = b64_encode(ciphered.as_slice());
    push_jstr(&mut out, ct_b64.as_slice());
    push_lit(&mut out, "}}");
    proof {
        lemma_enc_split(e@);
        reveal(enc_tail5);
        reveal(enc_tail6);
        let head = enc_head(e@.fingerprint, e@.kdf);
        let w6 = jstr(b64_ascii(e@.nonce));
        let w7 = lit(",\"ciphered\":");
        let w8 = jstr(b64_ascii(e@.ct));
        let w9 = lit("}}");
        let b6 = head + w6;
        let b7 = b6 + w7;
        let b8 = b7 + w8;
        let b9 = b8 + w9;
        assert(out@ == b9);
        lemma_concat_assoc(b7, w8, w9);
        lemma_concat_assoc(b6, w7, w8 + w9);
        lemma_concat_assoc(head, w6, w7 + (w8 + w9));
        assert(enc_tail5(e@) == w6 + (w7 + (w8 + w9)));
        assert(out@ == head + enc_tail5(e@));
    }
    out
}

/// Reads the head of a persisted record: the fingerprint and the KDF
/// parameters, up to the nonce key.
#[verifier::rlimit(100)]
fn parse_enc_head(buf: &[u8]) -> (r: Option<(String, Kdf, usize)>)
    ensures
        r matches Some(t) ==> starts_at(buf@, 0, enc_head(t.0@, t.1)) && t.2 == enc_head(
            t.0@,
            t.1,
        ).len(),
        forall|ev: EncView|
            #![trigger json_of_enc(ev)]
            buf@ == json_of_enc(ev) ==> (r matches Some(t) && t.0@ == ev.fingerprint && t.1
                == ev.kdf && t.2 == enc_head(ev.fingerprint, ev.kdf).len()),
{
    proof {
        assert forall|ev: EncView|
            #![trigger json_of_enc(ev)]
            buf@ == json_of_enc(ev) implies starts_at(buf@, 0, json_of_enc(ev)) && starts_at(
            buf@,
            0,
            lit("{\"public\":{\"fingerprint\":"),
        ) by {
            assert(buf@.subrange(0, json_of_enc(ev).len() as int) =~= buf@);
            lemma_starts_at_concat(buf@, 0, lit("{\"public\":{\"fingerprint\":"), enc_tail1(ev));
        }
    }
    let p1 = match expect_lit(buf, 0, "{\"public\":{\"fingerprint\":") {
        Some(p) => p,
        None => {
            return None;
        },
    };
    proof {
        assert forall|ev: EncView|
            #![trigger json_of_enc(ev)]
            buf@ == json_of_enc(ev) implies starts_at(buf@, p1 as int, enc_tail1(ev)) && starts_at(
            buf@,
            p1 as int,
            jstr(encode_utf8(ev.fingerprint)),
        ) by {
            reveal(enc_tail1);
            lemma_starts_at_concat(buf@, 0, lit("{\"public\":{\"fingerprint\":"), enc_tail1(ev));
            lemma_starts_at_concat(
                buf@,
                p1 as int,
                jstr(encode_utf8(ev.fingerprint)),
                enc_tail2(ev),
            );
        }
    }
    let (fv, p2) = match parse_jstr(buf, p1) {
        Some(t) => t,
        None => {
            return None;
        },
    };
    let ghost fbytes = fv@;
    let fingerprint = match string_from_utf8(fv) {
        Some(s) => s,
        None => {
            proof {
                assert forall|ev: EncView|
                    #![trigger json_of_enc(ev)]
                    buf@ != json_of_enc(ev) by {
                    if buf@ == json_of_enc(ev) {
                        assert(fbytes == encode_utf8(ev.fingerprint));
                        vstd::utf8::encode_utf8_valid_utf8(ev.fingerprint);
                    }
                }
            }
            return None;
        },
    };
    proof {
        assert forall|ev: EncView|
            #![trigger json_of_enc(ev)]
            buf@ == json_of_enc(ev) implies fingerprint@ == ev.fingerprint && starts_at(
            buf@,
            p2 as int,
            enc_tail2(ev),
        ) && starts_at(buf@, p2 as int, lit(",\"kdf\":")) by {
            assert(fbytes == encode_utf8(ev.fingerprint));
            assert(p2 == p1 + jstr(encode_utf8(ev.fingerprint)).len());
            assert(encode_utf8(fingerprint@) == fbytes);
            vstd::utf8::encode_utf8_decode_utf8(fingerprint@);
            vstd::utf8::encode_utf8_decode_utf8(ev.fingerprint);
            reveal(enc_tail1);
            reveal(enc_tail2);
            lemma_starts_at_concat(
                buf@,
                p1 as int,
                jstr(encode_utf8(ev.fingerprint)),
                enc_tail2(ev),
            );
            lemma_starts_at_concat(buf@, p2 as int, lit(",\"kdf\":"), enc_tail3(ev));
        }
    }
    let p3 = match expect_lit(buf, p2, ",\"kdf\":") {
        Some(p) => p,
        None => {
            return None;
        },
    };
    proof {
        assert forall|ev: EncView|
            #![trigger json_of_enc(ev)]
            buf@ == json_of_enc(ev) implies starts_at(buf@, p3 as int, enc_tail3(ev)) && starts_at(
            buf@,
            p3 as int,
            json_of_kdf(ev.kdf),
        ) by {
            reveal(enc_tail2);
            reveal(enc_tail3);
            lemma_starts_at_concat(buf@, p2 as int, lit(",\"kdf\":"), enc_tail3(ev));
            lemma_starts_at_concat(buf@, p3 as int, json_of_kdf(ev.kdf), enc_tail4(ev));
        }
    }
    let (kdf, p4) = match parse_kdf(buf, p3) {
        Some(t) => t,
        None => {
            return None;
        },
    };
    proof {
        assert forall|ev: EncView|
            #![trigger json_of_enc(ev)]
            buf@ == json_of_enc(ev) implies kdf == ev.kdf && starts_at(
            buf@,
            p4 as int,
            enc_tail4(ev),
        ) && starts_at(buf@, p4 as int, lit("},\"secret\":{\"alg\":\"AES-GCM-256\",\"nonce\":"))
            by {
            assert(kdf == ev.kdf && p4 == p3 + json_of_kdf(ev.kdf).len());
            reveal(enc_tail3);
            reveal(enc_tail4);
            lemma_starts_at_concat(buf@, p3 as int, json_of_kdf(ev.kdf), enc_tail4(ev));
            lemma_starts_at_concat(
                buf@,
                p4 as int,
                lit("},\"secret\":{\"alg\":\"AES-GCM-256\",\"nonce\":"),
                enc_tail5(ev),
            );
        }
    }
    let p5 = match expect_lit(buf, p4, "},\"secret\":{\"alg\":\"AES-GCM-256\",\"nonce\":") {
        Some(p) => p,
        None => {
            return None;
        },
    };
    proof {
        let w1 = lit("{\"public\":{\"fingerprint\":");
        let w2 = jstr(encode_utf8(fingerprint@));
        let w3 = lit(",\"kdf\":");
        let w4 = json_of_kdf(kdf);
        let w5 = lit("},\"secret\":{\"alg\":\"AES-GCM-256\",\"nonce\":");
        assert(encode_utf8(fingerprint@) == fbytes);
        assert(starts_at(buf@, p1 as int, w2));
        lemma_starts_at_concat(buf@, p3 as int, w4, w5);
        lemma_starts_at_concat(buf@, p2 as int, w3, w4 + w5);
        lemma_starts_at_concat(buf@, p1 as int, w2, w3 + (w4 + w5));
        lemma_starts_at_concat(buf@, 0, w1, w2 + (w3 + (w4 + w5)));
        assert(starts_at(buf@, 0, enc_head(fingerprint@, kdf)));
        assert(p5 == enc_head(fingerprint@, kdf).len());
        assert forall|ev: EncView|
            #![trigger json_of_enc(ev)]
            buf@ == json_of_enc(ev) implies p5 == enc_head(ev.fingerprint, ev.kdf).len() by {
        }
    }
    Some((fingerprint, kdf, p5))
}

/// Reads a whole persisted record: returns `Some` exactly on the full
/// rendering of some record, and then returns that record.
#[verifier::rlimit(100)]
pub fn parse_encrypted(buf: &[u8]) -> (r: Option<crate::state::EncryptedKeyState>)
    ensures
        r matches Some(e) ==> buf@ == json_of_enc(e@),
        forall|ev: EncView|
            #![trigger json_of_enc(ev)]
            ev.nonce.len() == 12 && buf@ == json_of_enc(ev) ==> (r matches Some(e) && e@ == ev),
{
    let (fingerprint, kdf, p5) = match parse_enc_head(buf) {
        Some(t) => t,
        None => {
            return None;
        },
    };
    proof {
        assert forall|ev: EncView|
            #![trigger json_of_enc(ev)]
            buf@ == json_of_enc(ev) implies starts_at(buf@, p5 as int, enc_tail5(ev)) && starts_at(
            buf@,
            p5 as int,
            jstr(b64_ascii(ev.nonce)),
        ) by {
            lemma_enc_split(ev);
            assert(starts_at(buf@, 0, json_of_enc(ev))) by {
                assert(buf@.subrange(0, json_of_enc(ev).len() as int) =~= buf@);
            }
            lemma_starts_at_concat(
                buf@,
                0,
                enc_head(ev.fingerprint, ev.kdf),
                enc_tail5(ev),
            );
            reveal(enc_tail5);
            lemma_starts_at_concat(buf@, p5 as int, jstr(b64_ascii(ev.nonce)), enc_tail6(ev));
        }
    }
    let (nv, p6) = match parse_jstr(buf, p5) {
        Some(t) => t,
        None => {
            return None;
        },
    };
    let nonce_vec = match b64_decode(nv.as_slice()) {
        Ok(v) => v,
        Err(()) => {
            proof {
                assert forall|ev: EncView|
                    #![trigger json_of_enc(ev)]
                    buf@ != json_of_enc(ev) by {
                    if buf@ == json_of_enc(ev) {
                        assert(starts_at(buf@, p5 as int, jstr(b64_ascii(ev.nonce))));
                        assert(nv@ == b64_ascii(ev.nonce));
                    }
                }
            }
            return None;
        },
    };
    if nonce_vec.len() != 12 {
        proof {
            assert forall|ev: EncView|
                #![trigger json_of_enc(ev)]
                !(ev.nonce.len() == 12 && buf@ == json_of_enc(ev)) by {
                if ev.nonce.len() == 12 && buf@ == json_of_enc(ev) {
                    assert(starts_at(buf@, p5 as int, jstr(b64_ascii(ev.nonce))));
                    assert(nv@ == b64_ascii(ev.nonce));
                    lemma_b64_injective(nonce_vec@, ev.nonce);
                }
            }
        }
        return None;
    }
    let nonce = nonce_array(&nonce_vec);
    proof {
        assert forall|ev: EncView|
            #![trigger json_of_enc(ev)]
            buf@ == json_of_enc(ev) implies nonce@ == ev.nonce && starts_at(
            buf@,
            p6 as int,
            enc_tail6(ev),
        ) && starts_at(buf@, p6 as int, lit(",\"ciphered\":")) by {
            assert(starts_at(buf@, p5 as int, jstr(b64_ascii(ev.nonce))));
            assert(nv@ == b64_ascii(ev.nonce));
            assert(p6 == p5 + jstr(b64_ascii(ev.nonce)).len());
            reveal(enc_tail5);
            reveal(enc_tail6);
            lemma_b64_injective(nonce_vec@, ev.nonce);
            lemma_starts_at_concat(buf@, p5 as int, jstr(b64_ascii(ev.nonce)), enc_tail6(ev));
            lemma_starts_at_concat(
                buf@,
                p6 as int,
                lit(",\"ciphered\":"),
                jstr(b64_ascii(ev.ct)) + lit("}}"),
            );
        }
    }
    let p7 = match expect_lit(buf, p6, ",\"ciphered\":") {
        Some(p) => p,
        None => {
            return None;
        },
    };
    proof {
        assert forall|ev: EncView|
            #![trigger json_of_enc(ev)]
            buf@ == json_of_enc(ev) implies starts_at(
            buf@,
            p7 as int,
            jstr(b64_ascii(ev.ct)) + lit("}}"),
        ) && starts_at(buf@, p7 as int, jstr(b64_ascii(ev.ct))) by {
            reveal(enc_tail6);
            lemma_starts_at_concat(
                buf@,
                p6 as int,
                lit(",\"ciphered\":"),
                jstr(b64_ascii(ev.ct)) + lit("}}"),
            );
            lemma_starts_at_concat(buf@, p7 as int, jstr(b64_ascii(ev.ct)), lit("}}"));
        }
    }
    let (cv2, p8) = match parse_jstr(buf, p7) {
        Some(t) => t,
        None => {
            return None;
        },
    };
    let ct = match b64_decode(cv2.as_slice()) {
        Ok(v) => v,
        Err(()) => {
            proof {
                assert forall|ev: EncView|
                    #![trigger json_of_enc(ev)]
                    buf@ != json_of_enc(ev) by {
                    if buf@ == json_of_enc(ev) {
                        assert(starts_at(buf@, p7 as int, jstr(b64_ascii(ev.ct))));
                        assert(cv2@ == b64_ascii(ev.ct));
                    }
                }
            }
            return None;
        },
    };
    proof {
        assert forall|ev: EncView|
            #![trigger json_of_enc(ev)]
            buf@ == json_of_enc(ev) implies ct@ == ev.ct && starts_at(buf@, p8 as int, lit("}}"))
            && p8 + 2 == buf@.len() by {
            reveal(enc_tail5);
            reveal(enc_tail6);
            reveal_strlit("}}");
            vstd::utf8::is_ascii_chars_encode_utf8("}}"@);
            assert(lit("}}").len() == 2);
            lemma_enc_split(ev);
            assert(starts_at(buf@, p7 as int, jstr(b64_ascii(ev.ct))));
            assert(starts_at(buf@, p5 as int, jstr(b64_ascii(ev.nonce))));
            assert(cv2@ == b64_ascii(ev.ct));
            assert(p8 == p7 + jstr(b64_ascii(ev.ct)).len());
            lemma_b64_injective(ct@, ev.ct);
            lemma_starts_at_concat(buf@, p7 as int, jstr(b64_ascii(ev.ct)), lit("}}"));
            assert(p6 == p5 + jstr(b64_ascii(ev.nonce)).len());
            assert(p5 == enc_head(ev.fingerprint, ev.kdf).len());
            assert(buf@.len() == json_of_enc(ev).len());
        }
    }
    let p9 = match expect_lit(buf, p8, "}}") {
        Some(p) => p,
        None => {
            return None;
        },
    };
    if p9 != buf.len() {
        proof {
            reveal_strlit("}}");
            vstd::utf8::is_ascii_chars_encode_utf8("}}"@);
            assert(lit("}}").len() == 2);
            assert forall|ev: EncView|
                #![trigger json_of_enc(ev)]
                buf@ != json_of_enc(ev) by {
                if buf@ == json_of_enc(ev) {
                    assert(p8 + 2 == buf@.len());
                }
            }
        }
        return None;
    }
    let secret = crate::ciphered::Ciphered::from_parts(CipherAlgorithm::AesGcm256, nonce, ct);
    let e = crate::state::EncryptedKeyState {
        public: crate::state::PublicKeyState { fingerprint, kdf },
        secret,
    };
    proof {
        lemma_enc_split(e@);
        reveal(enc_tail5);
        reveal(enc_tail6);
        lemma_starts_at_concat(buf@, p7 as int, jstr(b64_ascii(e@.ct)), lit("}}"));
        lemma_starts_at_concat(
            buf@,
            p6 as int,
            lit(",\"ciphered\":"),
            jstr(b64_ascii(e@.ct)) + lit("}}"),
        );
        lemma_starts_at_concat(buf@, p5 as int, jstr(b64_ascii(e@.nonce)), enc_tail6(e@));
        lemma_starts_at_concat(buf@, 0, enc_head(e@.fingerprint, e@.kdf), enc_tail5(e@));
        assert(starts_at(buf@, 0, json_of_enc(e@)));
        assert(buf@ =~= json_of_enc(e@)) by {
            assert(buf@.subrange(0, json_of_enc(e@).len() as int) =~= buf@);
        }
        assert forall|ev: EncView|
            #![trigger json_of_enc(ev)]
            buf@ == json_of_enc(ev) implies e@ == ev by {
            assert(e@.fingerprint == ev.fingerprint && e@.kdf == ev.kdf && e@.nonce == ev.nonce
                && e@.ct == ev.ct);
        }
    }
    Some(e)
}

} // verus!
