//! The textual building blocks of the persisted record: JSON string
//! escaping, decimal numbers, and exact-prefix parsing of both.
//!
//! Every emitter states exactly which bytes it appends, and every parser
//! states both what an accepted input looked like and that every canonical
//! rendering is accepted.  The save/load round trip is proved from these
//! two directions.

use vstd::prelude::*;
use vstd::arithmetic::div_mod::{lemma_fundamental_div_mod, lemma_fundamental_div_mod_converse_div};

use crate::bytesutil::push_bytes;

verus! {

/// The UTF-8 bytes of a string literal.
pub open spec fn lit(s: &str) -> Seq<u8> {
    vstd::utf8::encode_utf8(s@)
}

/// True when `pat` occurs in `buf` starting exactly at position `p`.
pub open spec fn starts_at(buf: Seq<u8>, p: int, pat: Seq<u8>) -> bool {
    0 <= p && p + pat.len() <= buf.len() && buf.subrange(p, p + pat.len()) == pat
}

/// Concatenation of sequences is associative.
pub proof fn lemma_concat_assoc(a: Seq<u8>, b: Seq<u8>, c: Seq<u8>)
    ensures
        (a + b) + c == a + (b + c),
{
    assert((a + b) + c =~= a + (b + c));
}

/// Splitting an occurrence of a concatenation into its two halves.
pub proof fn lemma_starts_at_concat(buf: Seq<u8>, p: int, x: Seq<u8>, y: Seq<u8>)
    ensures
        starts_at(buf, p, x + y) <==> (starts_at(buf, p, x) && starts_at(buf, p + x.len(), y)),
{
    if starts_at(buf, p, x + y) {
        assert(buf.subrange(p, p + x.len()) =~= (x + y).subrange(0, x.len() as int));
        assert((x + y).subrange(0, x.len() as int) =~= x);
        assert(buf.subrange(p + x.len(), p + x.len() + y.len()) =~= (x + y).subrange(
            x.len() as int,
            (x.len() + y.len()) as int,
        ));
        assert((x + y).subrange(x.len() as int, (x.len() + y.len()) as int) =~= y);
    }
    if starts_at(buf, p, x) && starts_at(buf, p + x.len(), y) {
        assert(buf.subrange(p, p + x.len() + y.len()) =~= x + y);
    }
}

/// An ASCII digit.
pub open spec fn is_digit(b: u8) -> bool {
    48 <= b <= 57
}

/// The lower-case hex digit for a 4-bit value.
pub open spec fn hex_digit(v: u8) -> u8
    recommends
        v < 16,
{
    if v < 10 {
        (48 + v) as u8
    } else {
        (87 + v) as u8
    }
}

/// How one byte appears inside a JSON string: quotes and backslashes get a
/// backslash escape, control bytes a `\u00XX` escape, everything else
/// stands as itself.
pub open spec fn esc_byte(b: u8) -> Seq<u8> {
    if b == 34 {
        seq![92u8, 34u8]
    } else if b == 92 {
        seq![92u8, 92u8]
    } else if b < 32 {
        seq![92u8, 117u8, 48u8, 48u8, hex_digit((b >> 4) as u8), hex_digit((b & 0x0f) as u8)]
    } else {
        seq![b]
    }
}

/// The JSON escaping of a byte sequence.
pub open spec fn esc(s: Seq<u8>) -> Seq<u8>
    decreases s.len(),
{
    if s.len() == 0 {
        seq![]
    } else {
        esc_byte(s[0]) + esc(s.drop_first())
    }
}

/// A whole JSON string: the escaped content between two quotes.
pub open spec fn jstr(s: Seq<u8>) -> Seq<u8> {
    seq![34u8] + esc(s) + seq![34u8]
}

/// Escaping distributes over concatenation.
pub proof fn lemma_esc_append(a: Seq<u8>, b: Seq<u8>)
    ensures
        esc(a + b) == esc(a) + esc(b),
    decreases a.len(),
{
    if a.len() == 0 {
        assert(a + b =~= b);
        assert(esc(a) + esc(b) =~= esc(b));
    } else {
        assert((a + b).drop_first() =~= a.drop_first() + b);
        lemma_esc_append(a.drop_first(), b);
        assert(esc(a + b) == esc_byte((a + b)[0]) + (esc(a.drop_first()) + esc(b)));
        assert(esc_byte(a[0]) + (esc(a.drop_first()) + esc(b)) =~= (esc_byte(a[0]) + esc(
            a.drop_first(),
        )) + esc(b));
    }
}

/// Appending one byte appends its escape.
pub proof fn lemma_esc_snoc(s: Seq<u8>, b: u8)
    ensures
        esc(s.push(b)) == esc(s) + esc_byte(b),
{
    assert(s.push(b) =~= s + seq![b]);
    lemma_esc_append(s, seq![b]);
    assert(esc(seq![b]) == esc_byte(b) + esc(seq![b].drop_first()));
    assert(seq![b].drop_first() =~= Seq::<u8>::empty());
    assert(esc_byte(b) + esc(Seq::<u8>::empty()) =~= esc_byte(b));
}

/// A byte that stands as itself inside a JSON string.
pub open spec fn plain_byte(b: u8) -> bool {
    b >= 32 && b != 34 && b != 92
}

/// The decimal rendering of a non-negative integer, most significant digit
/// first, without leading zeros.
pub open spec fn dec(n: int) -> Seq<u8>
    recommends
        n >= 0,
    decreases n,
    when n >= 0
{
    if n < 10 {
        seq![(48 + n) as u8]
    } else {
        dec(n / 10) + seq![(48 + n % 10) as u8]
    }
}

/// The value of a sequence of decimal digits.
pub open spec fn val(s: Seq<u8>) -> int
    decreases s.len(),
{
    if s.len() == 0 {
        0
    } else {
        val(s.drop_last()) * 10 + (s.last() - 48)
    }
}

/// The rendering of `n` consists of digits, starts with a zero only for
/// zero itself, and evaluates back to `n`.
pub proof fn lemma_dec_digits(n: int)
    requires
        n >= 0,
    ensures
        dec(n).len() >= 1,
        forall|i: int| 0 <= i < dec(n).len() ==> is_digit(#[trigger] dec(n)[i]),
        dec(n)[0] == 48 ==> n == 0,
        val(dec(n)) == n,
    decreases n,
{
    if n < 10 {
        assert(dec(n) == seq![(48 + n) as u8]);
        assert(dec(n).drop_last() =~= Seq::<u8>::empty());
        assert(dec(n).last() == (48 + n) as u8);
        assert(val(Seq::<u8>::empty()) == 0);
        assert((48 + n) as u8 == 48 + n);
        assert(val(dec(n)) == n);
    } else {
        lemma_fundamental_div_mod(n, 10);
        assert(n / 10 < n) by {
            lemma_fundamental_div_mod(n, 10);
        }
        lemma_dec_digits(n / 10);
        let d = (48 + n % 10) as u8;
        assert(dec(n) == dec(n / 10) + seq![d]);
        assert forall|i: int| 0 <= i < dec(n).len() implies is_digit(#[trigger] dec(n)[i]) by {
            if i < dec(n / 10).len() {
                assert(dec(n)[i] == dec(n / 10)[i]);
            } else {
                assert(dec(n)[i] == d);
            }
        }
        assert(dec(n)[0] == dec(n / 10)[0]);
        assert(n / 10 > 0);
        assert(dec(n).drop_last() =~= dec(n / 10));
        assert(dec(n).last() == d);
        assert(val(dec(n)) == val(dec(n / 10)) * 10 + (d - 48));
        assert(val(dec(n)) == (n / 10) * 10 + n % 10);
    }
}

/// Digit-sequence values are non-negative and grow along prefixes.
pub proof fn lemma_val_nonneg(s: Seq<u8>)
    requires
        forall|i: int| 0 <= i < s.len() ==> is_digit(#[trigger] s[i]),
    ensures
        val(s) >= 0,
    decreases s.len(),
{
    if s.len() > 0 {
        assert(forall|i: int|
            0 <= i < s.drop_last().len() ==> is_digit(#[trigger] s.drop_last()[i]));
        lemma_val_nonneg(s.drop_last());
        assert(is_digit(s.last()));
    }
}

/// Extending a digit sequence by one digit multiplies its value by ten and
/// adds the digit.
pub proof fn lemma_val_push(s: Seq<u8>, b: u8)
    ensures
        val(s.push(b)) == val(s) * 10 + (b - 48),
{
    assert(s.push(b).drop_last() =~= s);
    assert(s.push(b).last() == b);
}

/// A prefix of a digit sequence is worth no more than the whole.
pub proof fn lemma_val_prefix_le(s: Seq<u8>, i: int)
    requires
        forall|j: int| 0 <= j < s.len() ==> is_digit(#[trigger] s[j]),
        0 <= i <= s.len(),
    ensures
        val(s.take(i)) <= val(s),
    decreases s.len() - i,
{
    if i < s.len() {
        let t = s.take(i);
        assert(forall|j: int| 0 <= j < t.len() ==> is_digit(#[trigger] t[j]));
        lemma_val_nonneg(t);
        assert(s.take(i + 1) =~= t.push(s[i]));
        lemma_val_push(t, s[i]);
        assert(is_digit(s[i]));
        assert(val(s.take(i)) <= val(s.take(i + 1)));
        lemma_val_prefix_le(s, i + 1);
        assert(s.take(s.len() as int) =~= s);
    } else {
        assert(s.take(i) =~= s);
    }
}

/// A non-empty digit sequence without a leading zero is the rendering of
/// its own value.
pub proof fn lemma_digits_are_dec(s: Seq<u8>)
    requires
        s.len() >= 1,
        forall|j: int| 0 <= j < s.len() ==> is_digit(#[trigger] s[j]),
        s[0] == 48 ==> s.len() == 1,
    ensures
        dec(val(s)) == s,
        0 <= val(s),
    decreases s.len(),
{
    lemma_val_nonneg(s);
    if s.len() == 1 {
        assert(s.drop_last() =~= Seq::<u8>::empty());
        assert(s.last() == s[0]);
        assert(val(Seq::<u8>::empty()) == 0);
        assert(val(s) == s[0] - 48);
        assert(is_digit(s[0]));
        assert((48 + val(s)) as u8 == s[0]);
        assert(dec(val(s)) =~= s);
    } else {
        let t = s.drop_last();
        assert(forall|j: int| 0 <= j < t.len() ==> is_digit(#[trigger] t[j]));
        assert(t[0] == s[0]);
        lemma_digits_are_dec(t);
        lemma_val_nonneg(t);
        // The head value is positive: its rendering starts with a non-zero
        // digit.
        assert(val(t) > 0) by {
            if val(t) == 0 {
                lemma_dec_digits(0);
                assert(dec(0) == seq![48u8]);
                assert(t =~= dec(val(t)));
                assert(t[0] == 48);
            }
        }
        let v = val(s);
        assert(v == val(t) * 10 + (s.last() - 48));
        assert(0 <= s.last() - 48 < 10);
        lemma_fundamental_div_mod_converse_div(v, 10, val(t), s.last() - 48);
        assert(v / 10 == val(t));
        assert(v % 10 == s.last() - 48) by {
            lemma_fundamental_div_mod(v, 10);
        }
        assert(v >= 10);
        assert(dec(v) == dec(val(t)) + seq![(48 + v % 10) as u8]);
        assert(dec(v) =~= s);
    }
}

/// Appends the decimal rendering of `n`.
pub fn push_dec_u32(n: u32, out: &mut Vec<u8>)
    ensures
        final(out)@ == old(out)@ + dec(n as int),
    decreases n,
{
    if n < 10 {
        out.push(48 + (n as u8));
        proof {
            assert(old(out)@.push((48 + n as int) as u8) =~= old(out)@ + dec(n as int));
        }
    } else {
        push_dec_u32(n / 10, out);
        out.push(48 + ((n % 10) as u8));
        proof {
            assert((old(out)@ + dec(n as int / 10)).push((48 + (n as int) % 10) as u8) =~= old(
                out,
            )@ + dec(n as int));
        }
    }
}

fn hex_digit_byte(v: u8) -> (r: u8)
    requires
        v < 16,
    ensures
        r == hex_digit(v),
{
    if v < 10 {
        48 + v
    } else {
        87 + v
    }
}

/// Appends the JSON string rendering of `s`: a quote, the escaped bytes,
/// and a closing quote.
pub fn push_jstr(out: &mut Vec<u8>, s: &[u8])
    ensures
        final(out)@ == old(out)@ + jstr(s@),
{
    out.push(34);
    let n = s.len();
    let mut i: usize = 0;
    while i < n
        invariant
            n == s@.len(),
            i <= n,
            out@ == old(out)@ + seq![34u8] + esc(s@.take(i as int)),
        decreases n - i,
    {
        let b = s[i];
        if b == 34 {
            out.push(92);
            out.push(34);
        } else if b == 92 {
            out.push(92);
            out.push(92);
        } else if b < 32 {
            out.push(92);
            out.push(117);
            out.push(48);
            out.push(48);
            proof {
                assert((b >> 4) < 16 && (b & 0x0f) < 16) by (bit_vector);
            }
            out.push(hex_digit_byte(b >> 4));
            out.push(hex_digit_byte(b & 0x0f));
        } else {
            out.push(b);
        }
        proof {
            assert(s@.take(i + 1) =~= s@.take(i as int).push(s@[i as int]));
            lemma_esc_snoc(s@.take(i as int), s@[i as int]);
            assert(out@ =~= old(out)@ + seq![34u8] + esc(s@.take(i + 1)));
        }
        i = i + 1;
    }
    out.push(34);
    proof {
        assert(s@.take(n as int) =~= s@);
        assert(out@ =~= old(out)@ + jstr(s@));
    }
}

/// Appends the bytes of a string literal.
pub fn push_lit(out: &mut Vec<u8>, s: &str)
    ensures
        final(out)@ == old(out)@ + lit(s),
{
    push_bytes(out, s.as_bytes());
}

/// True exactly when the two byte slices hold the same bytes.
pub fn bytes_eq(a: &[u8], b: &[u8]) -> (r: bool)
    ensures
        r == (a@ == b@),
{
    if a.len() != b.len() {
        proof {
            assert(a@ != b@);
        }
        return false;
    }
    let n = a.len();
    let mut i: usize = 0;
    while i < n
        invariant
            n == a@.len(),
            n == b@.len(),
            i <= n,
            forall|j: int| 0 <= j < i ==> a@[j] == b@[j],
        decreases n - i,
    {
        if a[i] != b[i] {
            proof {
                assert(a@[i as int] != b@[i as int]);
            }
            return false;
        }
        i = i + 1;
    }
    proof {
        assert(a@ =~= b@);
    }
    true
}

/// Accepts exactly an occurrence of the literal at `pos`, returning the
/// position after it.
pub fn expect_lit(buf: &[u8], pos: usize, pat: &str) -> (r: Option<usize>)
    ensures
        r matches Some(p2) ==> starts_at(buf@, pos as int, lit(pat)) && p2 == pos + lit(
            pat,
        ).len(),
        starts_at(buf@, pos as int, lit(pat)) ==> r is Some,
{
    let p = pat.as_bytes();
    let n = p.len();
    if pos > buf.len() || buf.len() - pos < n {
        proof {
            assert(!starts_at(buf@, pos as int, lit(pat)));
        }
        return None;
    }
    let mut i: usize = 0;
    while i < n
        invariant
            n == p@.len(),
            p@ == lit(pat),
            i <= n,
            pos + n <= buf@.len(),
            buf@.len() <= usize::MAX,
            forall|j: int| 0 <= j < i ==> buf@[pos + j] == p@[j],
        decreases n - i,
    {
        if buf[pos + i] != p[i] {
            proof {
                if starts_at(buf@, pos as int, lit(pat)) {
                    assert(buf@.subrange(pos as int, pos + n)[i as int] == p@[i as int]);
                }
            }
            return None;
        }
        i = i + 1;
    }
    proof {
        assert(buf@.subrange(pos as int, pos + n) =~= p@);
    }
    Some(pos + n)
}

/// Reads a decimal `u32` written without leading zeros and bounded by a
/// non-digit (or the end of the input).
pub fn parse_dec_u32(buf: &[u8], pos: usize) -> (r: Option<(u32, usize)>)
    ensures
        r matches Some(t) ==> starts_at(buf@, pos as int, dec(t.0 as int)) && t.1 == pos + dec(
            t.0 as int,
        ).len() && (t.1 == buf@.len() || !is_digit(buf@[t.1 as int])),
        forall|n: u32|
            #![trigger dec(n as int)]
            (starts_at(buf@, pos as int, dec(n as int)) && (pos + dec(n as int).len()
                == buf@.len() || !is_digit(buf@[pos + dec(n as int).len()]))) ==> (r matches Some(
                t,
            ) && t.0 == n && t.1 == pos + dec(n as int).len()),
{
    if pos >= buf.len() || !(48 <= buf[pos] && buf[pos] <= 57) {
        proof {
            assert forall|n: u32|
                #![trigger dec(n as int)]
                !starts_at(buf@, pos as int, dec(n as int)) by {
                lemma_dec_digits(n as int);
                if starts_at(buf@, pos as int, dec(n as int)) {
                    assert(buf@.subrange(pos as int, pos + dec(n as int).len())[0] == dec(
                        n as int,
                    )[0]);
                    assert(is_digit(buf@[pos as int]));
                }
            }
        }
        return None;
    }
    proof {
        assert(is_digit(buf@[pos as int]));
    }
    if buf[pos] == 48 {
        // A canonical zero stands alone; a zero digit followed by more
        // digits is a leading zero and is rejected.
        if pos + 1 < buf.len() && 48 <= buf[pos + 1] && buf[pos + 1] <= 57 {
            proof {
                assert forall|n: u32|
                    #![trigger dec(n as int)]
                    !(starts_at(buf@, pos as int, dec(n as int)) && (pos + dec(n as int).len()
                        == buf@.len() || !is_digit(buf@[pos + dec(n as int).len()]))) by {
                    lemma_dec_digits(n as int);
                    if starts_at(buf@, pos as int, dec(n as int)) {
                        assert(buf@.subrange(pos as int, pos + dec(n as int).len())[0] == dec(
                            n as int,
                        )[0]);
                        assert(dec(n as int)[0] == 48);
                        assert(n == 0);
                        assert(dec(0).len() == 1);
                    }
                }
            }
            return None;
        }
        proof {
            lemma_dec_digits(0);
            assert(dec(0) =~= seq![48u8]);
            assert(buf@.subrange(pos as int, pos + 1) =~= seq![48u8]);
            assert forall|n: u32|
                #![trigger dec(n as int)]
                (starts_at(buf@, pos as int, dec(n as int)) && (pos + dec(n as int).len()
                    == buf@.len() || !is_digit(buf@[pos + dec(n as int).len()]))) implies n == 0 by {
                lemma_dec_digits(n as int);
                if starts_at(buf@, pos as int, dec(n as int)) {
                    assert(buf@.subrange(pos as int, pos + dec(n as int).len())[0] == dec(
                        n as int,
                    )[0]);
                    assert(dec(n as int)[0] == 48);
                }
            }
        }
        return Some((0, pos + 1));
    }
    let n_len = buf.len();
    let mut i: usize = pos;
    let mut acc: u64 = 0;
    while i < n_len && 48 <= buf[i] && buf[i] <= 57
        invariant
            n_len == buf@.len(),
            pos <= i <= n_len,
            pos < n_len,
            is_digit(buf@[pos as int]),
            buf@[pos as int] != 48,
            forall|j: int| pos <= j < i ==> is_digit(#[trigger] buf@[j]),
            acc == val(buf@.subrange(pos as int, i as int)),
            acc <= u32::MAX,
        decreases n_len - i,
    {
        let d = buf[i] - 48;
        acc = acc * 10 + (d as u64);
        proof {
            assert(buf@.subrange(pos as int, i + 1) =~= buf@.subrange(pos as int, i as int).push(
                buf@[i as int],
            ));
            lemma_val_push(buf@.subrange(pos as int, i as int), buf@[i as int]);
        }
        i = i + 1;
        if acc > 0xFFFF_FFFF {
            proof {
                let run = buf@.subrange(pos as int, i as int);
                assert forall|n: u32|
                    #![trigger dec(n as int)]
                    !(starts_at(buf@, pos as int, dec(n as int)) && (pos + dec(n as int).len()
                        == buf@.len() || !is_digit(buf@[pos + dec(n as int).len()]))) by {
                    lemma_dec_digits(n as int);
                    let dn = dec(n as int);
                    if starts_at(buf@, pos as int, dn) && (pos + dn.len() == buf@.len()
                        || !is_digit(buf@[pos + dn.len()])) {
                        // The digits consumed so far are a prefix of the
                        // number's rendering, so their value is bounded by
                        // the number itself.
                        assert(i - pos <= dn.len()) by {
                            if i - pos > dn.len() {
                                assert(is_digit(buf@[pos + dn.len()]));
                            }
                        }
                        assert(run =~= dn.take(i - pos)) by {
                            assert forall|j: int| 0 <= j < i - pos implies run[j] == dn.take(
                                i - pos,
                            )[j] by {
                                assert(buf@.subrange(pos as int, pos + dn.len())[j] == dn[j]);
                            }
                        }
                        lemma_val_prefix_le(dn, i - pos);
                        assert(val(run) <= val(dn));
                        assert(val(dn) == n as int);
                    }
                }
            }
            return None;
        }
    }
    proof {
        let run = buf@.subrange(pos as int, i as int);
        assert(run.len() >= 1);
        assert(run[0] == buf@[pos as int]);
        lemma_digits_are_dec(run);
        assert(dec(acc as int) == run);
        assert(i == pos + dec(acc as int).len());
        assert forall|n: u32|
            #![trigger dec(n as int)]
            (starts_at(buf@, pos as int, dec(n as int)) && (pos + dec(n as int).len()
                == buf@.len() || !is_digit(buf@[pos + dec(n as int).len()]))) implies n
            == acc as u32 by {
            lemma_dec_digits(n as int);
            let dn = dec(n as int);
            if starts_at(buf@, pos as int, dn) && (pos + dn.len() == buf@.len() || !is_digit(
                buf@[pos + dn.len()],
            )) {
                assert(dn.len() <= i - pos) by {
                    if dn.len() > i - pos {
                        // The byte that ended the scan would sit inside the
                        // rendering and be a digit.
                        assert(buf@.subrange(pos as int, pos + dn.len())[i - pos] == dn[i - pos]);
                        assert(is_digit(buf@[i as int]));
                    }
                }
                assert(i - pos <= dn.len()) by {
                    if i - pos > dn.len() {
                        assert(is_digit(buf@[pos + dn.len()]));
                    }
                }
                assert(run =~= dn) by {
                    assert forall|j: int| 0 <= j < run.len() implies run[j] == dn[j] by {
                        assert(buf@.subrange(pos as int, pos + dn.len())[j] == dn[j]);
                    }
                }
                assert(val(dn) == n as int);
            }
        }
    }
    Some((acc as u32, i))
}

/// The first byte of an occurrence is the pattern's first byte.
pub proof fn lemma_starts_at_index(buf: Seq<u8>, p: int, pat: Seq<u8>, j: int)
    requires
        starts_at(buf, p, pat),
        0 <= j < pat.len(),
    ensures
        buf[p + j] == pat[j],
{
    assert(buf.subrange(p, p + pat.len())[j] == pat[j]);
}

/// An occurrence of a whole JSON string splits into the opening quote, the
/// escaping of any content prefix, and the escaped rest with the closing
/// quote.
proof fn lemma_jstr_decompose(buf: Seq<u8>, pos: int, s: Seq<u8>, k: int)
    requires
        starts_at(buf, pos, jstr(s)),
        0 <= k <= s.len(),
    ensures
        starts_at(buf, pos, seq![34u8]),
        starts_at(buf, pos + 1, esc(s.take(k))),
        starts_at(buf, pos + 1 + esc(s.take(k)).len(), esc(s.skip(k)) + seq![34u8]),
{
    assert(s.take(k) + s.skip(k) =~= s);
    lemma_esc_append(s.take(k), s.skip(k));
    assert(jstr(s) =~= seq![34u8] + (esc(s.take(k)) + (esc(s.skip(k)) + seq![34u8])));
    lemma_starts_at_concat(buf, pos, seq![34u8], esc(s.take(k)) + (esc(s.skip(k)) + seq![34u8]));
    lemma_starts_at_concat(buf, pos + 1, esc(s.take(k)), esc(s.skip(k)) + seq![34u8]);
}

fn hex_val(b: u8) -> (r: Option<u8>)
    ensures
        r matches Some(v) ==> v < 16 && hex_digit(v) == b,
        forall|v: u8| v < 16 && b == hex_digit(v) ==> (r matches Some(w) && w == v),
{
    if 48 <= b && b <= 57 {
        Some(b - 48)
    } else if 97 <= b && b <= 102 {
        Some(b - 87)
    } else {
        None
    }
}

/// Reads a whole JSON string at `pos` and returns its unescaped content
/// bytes and the position after the closing quote.  Exactly the canonical
/// escapes are accepted: `\"`, `\\`, and `\u00XX` with lower-case hex for
/// control bytes.
pub fn parse_jstr(buf: &[u8], pos: usize) -> (r: Option<(Vec<u8>, usize)>)
    ensures
        r matches Some(t) ==> starts_at(buf@, pos as int, jstr(t.0@)) && t.1 == pos + jstr(
            t.0@,
        ).len(),
        forall|s: Seq<u8>|
            #![trigger jstr(s)]
            starts_at(buf@, pos as int, jstr(s)) ==> (r matches Some(t) && t.0@ == s && t.1 == pos
                + jstr(s).len()),
{
    let len = buf.len();
    if pos >= len || buf[pos] != 34 {
        proof {
            assert forall|s: Seq<u8>| #![trigger jstr(s)] !starts_at(buf@, pos as int, jstr(s)) by {
                if starts_at(buf@, pos as int, jstr(s)) {
                    lemma_starts_at_index(buf@, pos as int, jstr(s), 0);
                }
            }
        }
        return None;
    }
    let mut v: Vec<u8> = Vec::new();
    let mut i: usize = pos + 1;
    proof {
        assert(buf@.subrange(pos + 1, pos + 1) =~= Seq::<u8>::empty());
        assert(esc(v@) =~= Seq::<u8>::empty());
        assert(forall|s: Seq<u8>| Seq::<u8>::empty() =~= s.take(0));
    }
    loop
        invariant
            len == buf@.len(),
            buf@.len() <= usize::MAX,
            pos < len,
            buf@[pos as int] == 34,
            pos + 1 <= i <= len,
            esc(v@) == buf@.subrange(pos + 1, i as int),
            forall|s: Seq<u8>|
                #![trigger jstr(s)]
                starts_at(buf@, pos as int, jstr(s)) ==> v@.len() <= s.len() && v@ == s.take(
                    v@.len() as int,
                ),
        decreases len - i,
    {
        proof {
            let ghost k = v@.len() as int;
            assert forall|s: Seq<u8>|
                #![trigger jstr(s)]
                starts_at(buf@, pos as int, jstr(s)) implies starts_at(
                buf@,
                i as int,
                esc(s.skip(k)) + seq![34u8],
            ) by {
                lemma_jstr_decompose(buf@, pos as int, s, k);
                assert(s.take(k) == v@);
                assert(esc(s.take(k)).len() == i - pos - 1);
            }
        }
        if i >= len {
            proof {
                assert forall|s: Seq<u8>|
                    #![trigger jstr(s)]
                    !starts_at(buf@, pos as int, jstr(s)) by {
                    if starts_at(buf@, pos as int, jstr(s)) {
                        let k = v@.len() as int;
                        assert(starts_at(buf@, i as int, esc(s.skip(k)) + seq![34u8]));
                        assert(i + (esc(s.skip(k)) + seq![34u8]).len() <= len);
                    }
                }
            }
            return None;
        }
        let b = buf[i];
        let ghost k = v@.len() as int;
        if b == 34 {
            proof {
                assert(buf@.subrange(pos as int, i + 1) =~= seq![34u8] + esc(v@) + seq![34u8]);
                assert(starts_at(buf@, pos as int, jstr(v@)));
                assert forall|s: Seq<u8>|
                    #![trigger jstr(s)]
                    starts_at(buf@, pos as int, jstr(s)) implies v@ == s && i + 1 == pos + jstr(
                    s,
                ).len() by {
                    let rest = s.skip(k);
                    assert(starts_at(buf@, i as int, esc(rest) + seq![34u8]));
                    if rest.len() > 0 {
                        assert(esc(rest) == esc_byte(rest[0]) + esc(rest.drop_first()));
                        assert(esc_byte(rest[0]).len() >= 1);
                        lemma_starts_at_index(buf@, i as int, esc(rest) + seq![34u8], 0);
                        assert((esc(rest) + seq![34u8])[0] == esc(rest)[0]);
                        assert(esc(rest)[0] == esc_byte(rest[0])[0]);
                        if rest[0] == 34 || rest[0] == 92 || rest[0] < 32 {
                            assert(esc_byte(rest[0])[0] == 92);
                        } else {
                            assert(esc_byte(rest[0]) =~= seq![rest[0]]);
                        }
                        assert(buf@[i as int] != 34);
                    }
                    assert(rest.len() == 0);
                    assert(s.take(k) =~= s);
                    assert(jstr(s).len() == 2 + esc(s).len());
                }
            }
            return Some((v, i + 1));
        } else if b == 92 {
            proof {
                assert forall|s: Seq<u8>|
                    #![trigger jstr(s)]
                    starts_at(buf@, pos as int, jstr(s)) implies s.skip(k).len() > 0 && (
                esc_byte(s.skip(k)[0])[0] == 92 && (s.skip(k)[0] == 34 || s.skip(k)[0] == 92 || s.skip(
                    k,
                )[0] < 32)) by {
                    let rest = s.skip(k);
                    assert(starts_at(buf@, i as int, esc(rest) + seq![34u8]));
                    if rest.len() == 0 {
                        lemma_starts_at_index(buf@, i as int, esc(rest) + seq![34u8], 0);
                        assert(buf@[i as int] == 34);
                    }
                    assert(esc(rest) == esc_byte(rest[0]) + esc(rest.drop_first()));
                    lemma_starts_at_index(buf@, i as int, esc(rest) + seq![34u8], 0);
                    assert((esc(rest) + seq![34u8])[0] == esc_byte(rest[0])[0]);
                    if !(rest[0] == 34 || rest[0] == 92 || rest[0] < 32) {
                        assert(esc_byte(rest[0]) =~= seq![rest[0]]);
                        assert(buf@[i as int] == rest[0]);
                    }
                }
            }
            if len - i < 2 {
                proof {
                    assert forall|s: Seq<u8>|
                        #![trigger jstr(s)]
                        !starts_at(buf@, pos as int, jstr(s)) by {
                        if starts_at(buf@, pos as int, jstr(s)) {
                            let rest = s.skip(k);
                            assert(starts_at(buf@, i as int, esc(rest) + seq![34u8]));
                            assert(esc(rest) == esc_byte(rest[0]) + esc(rest.drop_first()));
                            assert(esc_byte(rest[0]).len() >= 2);
                            assert(i + 2 <= len);
                        }
                    }
                }
                return None;
            }
            let c = buf[i + 1];
            proof {
                assert forall|s: Seq<u8>|
                    #![trigger jstr(s)]
                    starts_at(buf@, pos as int, jstr(s)) implies buf@[i + 1] == esc_byte(
                    s.skip(k)[0],
                )[1] by {
                    let rest = s.skip(k);
                    assert(starts_at(buf@, i as int, esc(rest) + seq![34u8]));
                    assert(esc(rest) == esc_byte(rest[0]) + esc(rest.drop_first()));
                    lemma_starts_at_index(buf@, i as int, esc(rest) + seq![34u8], 1);
                    assert((esc(rest) + seq![34u8])[1] == esc_byte(rest[0])[1]);
                }
            }
            if c == 34 || c == 92 {
                let ghost vold = v@;
                v.push(c);
                proof {
                    lemma_esc_snoc(vold, c);
                    assert(esc_byte(c) =~= seq![92u8, c]);
                    assert(buf@.subrange(pos + 1, i + 2) =~= buf@.subrange(pos + 1, i as int)
                        + seq![92u8, c]);
                    assert(esc(v@) =~= buf@.subrange(pos + 1, i + 2));
                    assert forall|s: Seq<u8>|
                        #![trigger jstr(s)]
                        starts_at(buf@, pos as int, jstr(s)) implies v@.len() <= s.len() && v@
                        == s.take(v@.len() as int) by {
                        let rest = s.skip(k);
                        assert(rest.len() > 0);
                        assert(rest[0] == 34 || rest[0] == 92 || rest[0] < 32);
                        assert(buf@[i + 1] == esc_byte(rest[0])[1]);
                        if rest[0] < 32 {
                            assert(esc_byte(rest[0])[1] == 117);
                        }
                        if rest[0] == 34 || rest[0] == 92 {
                            assert(esc_byte(rest[0])[1] == rest[0]);
                        }
                        assert(rest[0] == c);
                        assert(s[k] == c);
                        assert(s.take(k + 1) =~= s.take(k).push(c));
                        assert(v@ =~= s.take(k + 1));
                    }
                }
                i = i + 2;
            } else if c == 117 {
                proof {
                    assert forall|s: Seq<u8>|
                        #![trigger jstr(s)]
                        starts_at(buf@, pos as int, jstr(s)) implies s.skip(k)[0] < 32
                        && starts_at(buf@, i as int, esc_byte(s.skip(k)[0])) by {
                        let rest = s.skip(k);
                        assert(buf@[i + 1] == esc_byte(rest[0])[1]);
                        if rest[0] == 34 || rest[0] == 92 {
                            assert(esc_byte(rest[0])[1] == rest[0]);
                        }
                        assert(rest[0] < 32);
                        assert(starts_at(buf@, i as int, esc(rest) + seq![34u8]));
                        assert(esc(rest) == esc_byte(rest[0]) + esc(rest.drop_first()));
                        lemma_starts_at_concat(
                            buf@,
                            i as int,
                            esc_byte(rest[0]),
                            esc(rest.drop_first()) + seq![34u8],
                        );
                        assert((esc_byte(rest[0]) + (esc(rest.drop_first()) + seq![34u8]))
                            =~= esc(rest) + seq![34u8]);
                    }
                }
                if len - i < 6 {
                    proof {
                        assert forall|s: Seq<u8>|
                            #![trigger jstr(s)]
                            !starts_at(buf@, pos as int, jstr(s)) by {
                            if starts_at(buf@, pos as int, jstr(s)) {
                                let rest = s.skip(k);
                                assert(starts_at(buf@, i as int, esc_byte(rest[0])));
                                assert(esc_byte(rest[0]).len() == 6);
                            }
                        }
                    }
                    return None;
                }
                let ok0 = buf[i + 2] == 48 && buf[i + 3] == 48;
                let h1 = hex_val(buf[i + 4]);
                let h2 = hex_val(buf[i + 5]);
                proof {
                    assert forall|s: Seq<u8>|
                        #![trigger jstr(s)]
                        starts_at(buf@, pos as int, jstr(s)) implies buf@[i + 2] == 48 && buf@[i
                        + 3] == 48 && buf@[i + 4] == hex_digit((s.skip(k)[0] >> 4) as u8) && buf@[i
                        + 5] == hex_digit((s.skip(k)[0] & 0x0f) as u8) by {
                        let rest = s.skip(k);
                        assert(starts_at(buf@, i as int, esc_byte(rest[0])));
                        lemma_starts_at_index(buf@, i as int, esc_byte(rest[0]), 2);
                        lemma_starts_at_index(buf@, i as int, esc_byte(rest[0]), 3);
                        lemma_starts_at_index(buf@, i as int, esc_byte(rest[0]), 4);
                        lemma_starts_at_index(buf@, i as int, esc_byte(rest[0]), 5);
                    }
                }
                match (h1, h2) {
                    (Some(hv1), Some(hv2)) => {
                        if ok0 {
                            let x = hv1 * 16 + hv2;
                            if x < 32 {
                                let ghost vold = v@;
                                v.push(x);
                                proof {
                                    lemma_esc_snoc(vold, x);
                                    assert((x >> 4) == hv1 && (x & 0x0f) == hv2) by (bit_vector)
                                        requires
                                            hv1 < 16 && hv2 < 16 && x == hv1 * 16 + hv2,
                                    ;
                                    assert(esc_byte(x) =~= seq![
                                        92u8,
                                        117u8,
                                        48u8,
                                        48u8,
                                        hex_digit(hv1),
                                        hex_digit(hv2),
                                    ]);
                                    assert(buf@.subrange(pos + 1, i + 6) =~= buf@.subrange(
                                        pos + 1,
                                        i as int,
                                    ) + seq![
                                        92u8,
                                        117u8,
                                        48u8,
                                        48u8,
                                        buf@[i + 4],
                                        buf@[i + 5],
                                    ]);
                                    assert(esc(v@) =~= buf@.subrange(pos + 1, i + 6));
                                    assert forall|s: Seq<u8>|
                                        #![trigger jstr(s)]
                                        starts_at(buf@, pos as int, jstr(s)) implies v@.len()
                                        <= s.len() && v@ == s.take(v@.len() as int) by {
                                        let rest = s.skip(k);
                                        let y = rest[0];
                                        assert(buf@[i + 4] == hex_digit((y >> 4) as u8));
                                        assert(buf@[i + 5] == hex_digit((y & 0x0f) as u8));
                                        assert((y >> 4) < 16 && (y & 0x0f) < 16) by (bit_vector);
                                        assert(hv1 == (y >> 4) as u8);
                                        assert(hv2 == (y & 0x0f) as u8);
                                        assert(x == y) by (bit_vector)
                                            requires
                                                x == ((y >> 4) as u8) * 16 + ((y & 0x0f) as u8),
                                        ;
                                        assert(s[k] == x);
                                        assert(s.take(k + 1) =~= s.take(k).push(x));
                                        assert(v@ =~= s.take(k + 1));
                                    }
                                }
                                i = i + 6;
                            } else {
                                // A canonical `\u00XX` escape always names a
                                // control byte.
                                proof {
                                    assert forall|s: Seq<u8>|
                                        #![trigger jstr(s)]
                                        !starts_at(buf@, pos as int, jstr(s)) by {
                                        if starts_at(buf@, pos as int, jstr(s)) {
                                            let y = s.skip(k)[0];
                                            assert((y >> 4) < 16 && (y & 0x0f) < 16)
                                                by (bit_vector);
                                            assert(hex_digit((y >> 4) as u8) == buf@[i + 4]);
                                            assert(hex_digit((y & 0x0f) as u8) == buf@[i + 5]);
                                            assert(hv1 == (y >> 4) as u8);
                                            assert(hv2 == (y & 0x0f) as u8);
                                            assert(x == y) by (bit_vector)
                                                requires
                                                    x == ((y >> 4) as u8) * 16 + ((y
                                                        & 0x0f) as u8),
                                            ;
                                        }
                                    }
                                }
                                return None;
                            }
                        } else {
                            proof {
                                assert forall|s: Seq<u8>|
                                    #![trigger jstr(s)]
                                    !starts_at(buf@, pos as int, jstr(s)) by {
                                    if starts_at(buf@, pos as int, jstr(s)) {
                                        assert(buf@[i + 2] == 48 && buf@[i + 3] == 48);
                                    }
                                }
                            }
                            return None;
                        }
                    },
                    _ => {
                        // A canonical escape carries two valid lower-case
                        // hex digits.
                        proof {
                            assert forall|s: Seq<u8>|
                                #![trigger jstr(s)]
                                !starts_at(buf@, pos as int, jstr(s)) by {
                                if starts_at(buf@, pos as int, jstr(s)) {
                                    let y = s.skip(k)[0];
                                    assert((y >> 4) < 16 && (y & 0x0f) < 16) by (bit_vector);
                                    assert(buf@[i + 4] == hex_digit((y >> 4) as u8));
                                    assert(buf@[i + 5] == hex_digit((y & 0x0f) as u8));
                                    assert(h1 matches Some(w) && w == (y >> 4) as u8);
                                    assert(h2 matches Some(w) && w == (y & 0x0f) as u8);
                                }
                            }
                        }
                        return None;
                    },
                }
            } else {
                proof {
                    assert forall|s: Seq<u8>|
                        #![trigger jstr(s)]
                        !starts_at(buf@, pos as int, jstr(s)) by {
                        if starts_at(buf@, pos as int, jstr(s)) {
                            let rest = s.skip(k);
                            assert(buf@[i + 1] == esc_byte(rest[0])[1]);
                            assert(rest[0] == 34 || rest[0] == 92 || rest[0] < 32);
                            if rest[0] < 32 {
                                assert(esc_byte(rest[0])[1] == 117);
                            }
                            if rest[0] == 34 || rest[0] == 92 {
                                assert(esc_byte(rest[0])[1] == rest[0]);
                            }
                        }
                    }
                }
                return None;
            }
        } else if b >= 32 {
            let ghost vold = v@;
            v.push(b);
            proof {
                lemma_esc_snoc(vold, b);
                assert(plain_byte(b));
                assert(esc_byte(b) =~= seq![b]);
                assert(buf@.subrange(pos + 1, i + 1) =~= buf@.subrange(pos + 1, i as int) + seq![
                    b,
                ]);
                assert(esc(v@) =~= buf@.subrange(pos + 1, i + 1));
                assert forall|s: Seq<u8>|
                    #![trigger jstr(s)]
                    starts_at(buf@, pos as int, jstr(s)) implies v@.len() <= s.len() && v@
                    == s.take(v@.len() as int) by {
                    let rest = s.skip(k);
                    assert(starts_at(buf@, i as int, esc(rest) + seq![34u8]));
                    if rest.len() == 0 {
                        lemma_starts_at_index(buf@, i as int, esc(rest) + seq![34u8], 0);
                        assert(buf@[i as int] == 34);
                    }
                    assert(rest.len() > 0);
                    assert(esc(rest) == esc_byte(rest[0]) + esc(rest.drop_first()));
                    lemma_starts_at_index(buf@, i as int, esc(rest) + seq![34u8], 0);
                    assert((esc(rest) + seq![34u8])[0] == esc_byte(rest[0])[0]);
                    if rest[0] == 34 || rest[0] == 92 || rest[0] < 32 {
                        assert(esc_byte(rest[0])[0] == 92);
                    } else {
                        assert(esc_byte(rest[0]) =~= seq![rest[0]]);
                    }
                    assert(rest[0] == b);
                    assert(s[k] == b);
                    assert(s.take(k + 1) =~= s.take(k).push(b));
                    assert(v@ =~= s.take(k + 1));
                }
            }
            i = i + 1;
        } else {
            proof {
                assert forall|s: Seq<u8>| #![trigger jstr(s)] !starts_at(buf@, pos as int, jstr(s))
                    by {
                    if starts_at(buf@, pos as int, jstr(s)) {
                        let rest = s.skip(k);
                        assert(starts_at(buf@, i as int, esc(rest) + seq![34u8]));
                        if rest.len() == 0 {
                            lemma_starts_at_index(buf@, i as int, esc(rest) + seq![34u8], 0);
                            assert(buf@[i as int] == 34);
                        }
                        assert(esc(rest) == esc_byte(rest[0]) + esc(rest.drop_first()));
                        lemma_starts_at_index(buf@, i as int, esc(rest) + seq![34u8], 0);
                        assert((esc(rest) + seq![34u8])[0] == esc_byte(rest[0])[0]);
                        if rest[0] == 34 || rest[0] == 92 || rest[0] < 32 {
                            assert(esc_byte(rest[0])[0] == 92);
                        } else {
                            assert(esc_byte(rest[0]) =~= seq![rest[0]]);
                        }
                    }
                }
            }
            return None;
        }
    }
}

} // verus!
