//! Verified helpers relating ASCII byte sequences to strings.

use vstd::prelude::*;
use vstd::utf8::{
    encode_utf8, valid_utf8, is_ascii_chars, is_ascii_chars_encode_utf8, encode_utf8_valid_utf8,
    encode_utf8_decode_utf8, is_char_boundary, is_char_boundary_iff_not_is_continuation_byte,
    is_char_boundary_start_end_of_seq, is_continuation_byte,
};
use vstd::string::StringSliceAdditionalSpecFns;

verus! {

/// The characters that a sequence of ASCII bytes spells.
pub open spec fn ascii_chars_of(b: Seq<u8>) -> Seq<char> {
    Seq::new(b.len(), |i: int| b[i] as char)
}

/// True when every byte of the sequence is ASCII.
pub open spec fn all_ascii(b: Seq<u8>) -> bool {
    forall|i: int| 0 <= i < b.len() ==> b[i] < 0x80
}

/// A sequence of ASCII bytes encodes exactly the characters it spells: any
/// character sequence whose UTF-8 encoding is `b` is `ascii_chars_of(b)`.
pub proof fn lemma_ascii_bytes_chars(b: Seq<u8>, s: Seq<char>)
    requires
        encode_utf8(s) == b,
        all_ascii(b),
    ensures
        s == ascii_chars_of(b),
        is_ascii_chars(s),
{
    let c = ascii_chars_of(b);
    assert(is_ascii_chars(c)) by {
        assert forall|i: int| 0 <= i < c.len() implies '\0' <= #[trigger] c[i] <= '\u{7f}' by {
            assert(b[i] < 0x80);
            assert(c[i] == b[i] as char);
        }
    }
    is_ascii_chars_encode_utf8(c);
    assert(encode_utf8(c) =~= b);
    encode_utf8_decode_utf8(s);
    encode_utf8_decode_utf8(c);
    assert(s == c);
}

/// The UTF-8 encoding of ASCII characters is the bytes they spell.
pub proof fn lemma_ascii_chars_bytes(s: Seq<char>)
    requires
        is_ascii_chars(s),
    ensures
        encode_utf8(s).len() == s.len(),
        all_ascii(encode_utf8(s)),
        s == ascii_chars_of(encode_utf8(s)),
{
    is_ascii_chars_encode_utf8(s);
    assert(s =~= ascii_chars_of(encode_utf8(s)));
}

/// Relies on `String::from_utf8`: succeeds exactly on valid UTF-8 input and
/// returns a string whose UTF-8 bytes are the input bytes.
#[verifier::external_body]
pub(crate) fn string_from_utf8(v: Vec<u8>) -> (r: Option<String>)
    ensures
        r matches Some(s) ==> encode_utf8(s@) == v@,
        valid_utf8(v@) ==> r is Some,
{
    String::from_utf8(v).ok()
}

/// Turns a vector of ASCII bytes into the string spelling those bytes.
pub fn ascii_string(v: Vec<u8>) -> (r: String)
    requires
        all_ascii(v@),
    ensures
        r@ == ascii_chars_of(v@),
        is_ascii_chars(r@),
{
    let ghost bytes = v@;
    proof {
        let c = ascii_chars_of(bytes);
        assert(is_ascii_chars(c)) by {
            assert forall|i: int| 0 <= i < c.len() implies '\0' <= #[trigger] c[i] <= '\u{7f}' by {
                assert(bytes[i] < 0x80);
            }
        }
        is_ascii_chars_encode_utf8(c);
        assert(encode_utf8(c) =~= bytes);
        encode_utf8_valid_utf8(c);
    }
    match string_from_utf8(v) {
        Some(s) => {
            proof {
                lemma_ascii_bytes_chars(bytes, s@);
            }
            s
        },
        None => {
            proof {
                assert(false);
            }
            String::new()
        },
    }
}

/// True exactly when the two strings hold the same characters.
pub fn str_eq(a: &str, b: &str) -> (r: bool)
    ensures
        r == (a@ == b@),
{
    let r = crate::jsontext::bytes_eq(a.as_bytes(), b.as_bytes());
    proof {
        if a.spec_bytes() == b.spec_bytes() {
            encode_utf8_decode_utf8(a@);
            encode_utf8_decode_utf8(b@);
            assert(a@ == b@);
        }
    }
    r
}

/// Relies on `String::push`: appends exactly the one given character.
#[verifier::external_body]
pub(crate) fn string_push(s: &mut String, c: char)
    ensures
        final(s)@ == old(s)@.push(c),
{
    s.push(c);
}

/// Relies on `str::chars`: yields exactly the characters of the string, in
/// order.
#[verifier::external_body]
pub(crate) fn str_chars(s: &str) -> (r: Vec<char>)
    ensures
        r@ == s@,
{
    s.chars().collect()
}

/// An ASCII string has one byte per character.
pub proof fn lemma_ascii_str_len(s: &str)
    requires
        vstd::string::is_ascii(s),
    ensures
        s.spec_bytes().len() == s@.len(),
        all_ascii(s.spec_bytes()),
        s@ == ascii_chars_of(s.spec_bytes()),
{
    lemma_ascii_chars_bytes(s@);
}

/// The substring of an ASCII string between two character positions.
pub fn substr_ascii<'a>(s: &'a str, a: usize, b: usize) -> (t: &'a str)
    requires
        vstd::string::is_ascii(s),
        a <= b <= s@.len(),
    ensures
        t@ == s@.subrange(a as int, b as int),
        vstd::string::is_ascii(t),
{
    proof {
        lemma_ascii_str_len(s);
        let bytes = s.spec_bytes();
        encode_utf8_valid_utf8(s@);
        is_char_boundary_start_end_of_seq(bytes);
        if b < bytes.len() {
            is_char_boundary_iff_not_is_continuation_byte(bytes, b as int);
            assert(bytes[b as int] < 0x80);
            assert(!is_continuation_byte(bytes[b as int]));
        }
    }
    let (pre, _) = s.split_at(b);
    proof {
        let bytes = s.spec_bytes();
        let pre_bytes = bytes.subrange(0, b as int);
        assert(pre.spec_bytes() =~= pre_bytes);
        assert(all_ascii(pre_bytes));
        lemma_ascii_bytes_chars(pre_bytes, pre@);
        assert(pre@ =~= s@.subrange(0, b as int));
        encode_utf8_valid_utf8(pre@);
        is_char_boundary_start_end_of_seq(pre.spec_bytes());
        if a < pre_bytes.len() {
            is_char_boundary_iff_not_is_continuation_byte(pre.spec_bytes(), a as int);
            assert(pre.spec_bytes()[a as int] < 0x80);
            assert(!is_continuation_byte(pre.spec_bytes()[a as int]));
        }
    }
    let (_, mid) = pre.split_at(a);
    proof {
        let pre_bytes = s.spec_bytes().subrange(0, b as int);
        let mid_bytes = pre_bytes.subrange(a as int, pre_bytes.len() as int);
        assert(mid.spec_bytes() =~= mid_bytes);
        assert(all_ascii(mid_bytes));
        lemma_ascii_bytes_chars(mid_bytes, mid@);
        assert(mid@ =~= s@.subrange(a as int, b as int));
        assert(is_ascii_chars(mid@));
    }
    mid
}

} // verus!
