//! Standard padded Base64, used for byte fields in the persisted record.

use base64ct::Encoding;
use vstd::prelude::*;

verus! {

/// The Base64 symbol for one 6-bit value.
pub open spec fn b64_sym(v: u8) -> u8
    recommends
        v < 64,
{
    if v < 26 {
        (65 + v) as u8
    } else if v < 52 {
        (97 + (v - 26)) as u8
    } else if v < 62 {
        (48 + (v - 52)) as u8
    } else if v == 62 {
        43u8
    } else {
        47u8
    }
}

/// The four symbols encoding one full 3-byte block.
pub open spec fn b64_block3(b0: u8, b1: u8, b2: u8) -> Seq<u8> {
    seq![
        b64_sym((b0 >> 2) as u8),
        b64_sym((((b0 & 0x03) << 4) | (b1 >> 4)) as u8),
        b64_sym((((b1 & 0x0f) << 2) | (b2 >> 6)) as u8),
        b64_sym((b2 & 0x3f) as u8),
    ]
}

/// The padded Base64 encoding of a byte sequence, as ASCII bytes.
pub open spec fn b64_ascii(b: Seq<u8>) -> Seq<u8>
    decreases b.len(),
{
    if b.len() == 0 {
        seq![]
    } else if b.len() == 1 {
        seq![
            b64_sym((b[0] >> 2) as u8),
            b64_sym(((b[0] & 0x03) << 4) as u8),
            61u8,
            61u8,
        ]
    } else if b.len() == 2 {
        seq![
            b64_sym((b[0] >> 2) as u8),
            b64_sym((((b[0] & 0x03) << 4) | (b[1] >> 4)) as u8),
            b64_sym(((b[1] & 0x0f) << 2) as u8),
            61u8,
        ]
    } else {
        b64_block3(b[0], b[1], b[2]) + b64_ascii(b.skip(3))
    }
}

/// Every Base64 symbol is printable ASCII, and none is a quote, a
/// backslash or the padding byte.
pub proof fn lemma_b64_sym_range(v: u8)
    requires
        v < 64,
    ensures
        32 <= b64_sym(v) < 0x7f,
        b64_sym(v) != 34,
        b64_sym(v) != 92,
        b64_sym(v) != 61,
{
}

proof fn lemma_b64_sym_injective(v1: u8, v2: u8)
    requires
        v1 < 64,
        v2 < 64,
        b64_sym(v1) == b64_sym(v2),
    ensures
        v1 == v2,
{
}

/// An encoding is empty only for the empty input, and always a multiple of
/// four bytes long.
pub proof fn lemma_b64_ascii_len(b: Seq<u8>)
    ensures
        b.len() == 0 ==> b64_ascii(b).len() == 0,
        b.len() > 0 ==> b64_ascii(b).len() >= 4,
        b64_ascii(b).len() % 4 == 0,
    decreases b.len(),
{
    if b.len() > 2 {
        lemma_b64_ascii_len(b.skip(3));
    }
}

/// Base64 encoding is injective: equal encodings come from equal inputs.
pub proof fn lemma_b64_injective(a: Seq<u8>, b: Seq<u8>)
    requires
        b64_ascii(a) == b64_ascii(b),
    ensures
        a == b,
    decreases a.len(),
{
    let ea = b64_ascii(a);
    let eb = b64_ascii(b);
    lemma_b64_ascii_len(a);
    lemma_b64_ascii_len(b);
    if a.len() == 0 {
        assert(eb.len() == 0);
        assert(a =~= b);
    } else if b.len() == 0 {
        assert(ea.len() == 0);
        assert(a =~= b);
    } else {
        // Neither input is empty, so both encodings have at least one
        // 4-symbol block; the padding bytes pin down which tail case each
        // input is in.
        lemma_pad_shape(a);
        lemma_pad_shape(b);
        if a.len() == 1 {
            assert(ea[2] == 61 && ea[3] == 61);
            assert(b.len() == 1);
            sym_args_less_64(a[0], 0, 0);
            sym_args_less_64(b[0], 0, 0);
            lemma_b64_sym_injective((a[0] >> 2) as u8, (b[0] >> 2) as u8);
            lemma_b64_sym_injective(((a[0] & 0x03) << 4) as u8, ((b[0] & 0x03) << 4) as u8);
            let x = a[0];
            let y = b[0];
            assert(x >> 2 == y >> 2 && (x & 0x03) << 4 == (y & 0x03) << 4 ==> x == y)
                by (bit_vector);
            assert(a =~= b);
        } else if a.len() == 2 {
            assert(ea[3] == 61 && ea[2] != 61);
            assert(b.len() == 2);
            sym_args_less_64(a[0], a[1], 0);
            sym_args_less_64(b[0], b[1], 0);
            assert(ea[0] == b64_sym((a[0] >> 2) as u8));
            assert(ea[1] == b64_sym((((a[0] & 0x03) << 4) | (a[1] >> 4)) as u8));
            assert(ea[2] == b64_sym(((a[1] & 0x0f) << 2) as u8));
            assert(eb[0] == b64_sym((b[0] >> 2) as u8));
            assert(eb[1] == b64_sym((((b[0] & 0x03) << 4) | (b[1] >> 4)) as u8));
            assert(eb[2] == b64_sym(((b[1] & 0x0f) << 2) as u8));
            lemma_b64_sym_injective((a[0] >> 2) as u8, (b[0] >> 2) as u8);
            lemma_b64_sym_injective(
                (((a[0] & 0x03) << 4) | (a[1] >> 4)) as u8,
                (((b[0] & 0x03) << 4) | (b[1] >> 4)) as u8,
            );
            lemma_b64_sym_injective(((a[1] & 0x0f) << 2) as u8, ((b[1] & 0x0f) << 2) as u8);
            let x0 = a[0];
            let x1 = a[1];
            let y0 = b[0];
            let y1 = b[1];
            assert(x0 >> 2 == y0 >> 2 && ((x0 & 0x03) << 4) | (x1 >> 4) == ((y0 & 0x03) << 4) | (
            y1 >> 4) && (x1 & 0x0f) << 2 == (y1 & 0x0f) << 2 ==> x0 == y0 && x1 == y1)
                by (bit_vector);
            assert(a =~= b);
        } else {
            assert(ea[2] != 61 && ea[3] != 61);
            assert(b.len() >= 3);
            sym_args_less_64(a[0], a[1], a[2]);
            sym_args_less_64(b[0], b[1], b[2]);
            assert(ea == b64_block3(a[0], a[1], a[2]) + b64_ascii(a.skip(3)));
            assert(eb == b64_block3(b[0], b[1], b[2]) + b64_ascii(b.skip(3)));
            let block_a = b64_block3(a[0], a[1], a[2]);
            let block_b = b64_block3(b[0], b[1], b[2]);
            assert(block_a[0] == b64_sym((a[0] >> 2) as u8) && block_a[1] == b64_sym(
                (((a[0] & 0x03) << 4) | (a[1] >> 4)) as u8,
            ) && block_a[2] == b64_sym((((a[1] & 0x0f) << 2) | (a[2] >> 6)) as u8) && block_a[3]
                == b64_sym((a[2] & 0x3f) as u8));
            assert(block_b[0] == b64_sym((b[0] >> 2) as u8) && block_b[1] == b64_sym(
                (((b[0] & 0x03) << 4) | (b[1] >> 4)) as u8,
            ) && block_b[2] == b64_sym((((b[1] & 0x0f) << 2) | (b[2] >> 6)) as u8) && block_b[3]
                == b64_sym((b[2] & 0x3f) as u8));
            assert(ea[0] == block_a[0] && ea[1] == block_a[1] && ea[2] == block_a[2] && ea[3]
                == block_a[3]);
            assert(eb[0] == block_b[0] && eb[1] == block_b[1] && eb[2] == block_b[2] && eb[3]
                == block_b[3]);
            lemma_b64_sym_injective((a[0] >> 2) as u8, (b[0] >> 2) as u8);
            lemma_b64_sym_injective(
                (((a[0] & 0x03) << 4) | (a[1] >> 4)) as u8,
                (((b[0] & 0x03) << 4) | (b[1] >> 4)) as u8,
            );
            lemma_b64_sym_injective(
                (((a[1] & 0x0f) << 2) | (a[2] >> 6)) as u8,
                (((b[1] & 0x0f) << 2) | (b[2] >> 6)) as u8,
            );
            lemma_b64_sym_injective((a[2] & 0x3f) as u8, (b[2] & 0x3f) as u8);
            let x0 = a[0];
            let x1 = a[1];
            let x2 = a[2];
            let y0 = b[0];
            let y1 = b[1];
            let y2 = b[2];
            assert(x0 >> 2 == y0 >> 2 && ((x0 & 0x03) << 4) | (x1 >> 4) == ((y0 & 0x03) << 4) | (
            y1 >> 4) && ((x1 & 0x0f) << 2) | (x2 >> 6) == ((y1 & 0x0f) << 2) | (y2 >> 6) && (x2
                & 0x3f) == (y2 & 0x3f) ==> x0 == y0 && x1 == y1 && x2 == y2) by (bit_vector);
            assert(ea.skip(4) =~= b64_ascii(a.skip(3)));
            assert(eb.skip(4) =~= b64_ascii(b.skip(3)));
            lemma_b64_injective(a.skip(3), b.skip(3));
            assert(a.len() == b.len());
            assert forall|i: int| 0 <= i < a.len() implies a[i] == b[i] by {
                if i >= 3 {
                    assert(a[i] == a.skip(3)[i - 3]);
                    assert(b[i] == b.skip(3)[i - 3]);
                }
            }
            assert(a =~= b);
        }
    }
}

proof fn sym_args_less_64(b0: u8, b1: u8, b2: u8)
    ensures
        (b0 >> 2) < 64,
        (((b0 & 0x03) << 4) | (b1 >> 4)) < 64,
        ((b0 & 0x03) << 4) < 64,
        (((b1 & 0x0f) << 2) | (b2 >> 6)) < 64,
        ((b1 & 0x0f) << 2) < 64,
        (b2 & 0x3f) < 64,
{
    assert((b0 >> 2) < 64 && (((b0 & 0x03) << 4) | (b1 >> 4)) < 64 && ((b0 & 0x03) << 4) < 64 && (
    ((b1 & 0x0f) << 2) | (b2 >> 6)) < 64 && ((b1 & 0x0f) << 2) < 64 && (b2 & 0x3f) < 64)
        by (bit_vector);
}

/// The padding bytes of the first block say which tail case the input is
/// in: two `=` for a single leftover byte, one for two, none for a full
/// block.
proof fn lemma_pad_shape(b: Seq<u8>)
    requires
        b.len() > 0,
    ensures
        b.len() == 1 ==> b64_ascii(b)[2] == 61 && b64_ascii(b)[3] == 61,
        b.len() == 2 ==> b64_ascii(b)[2] != 61 && b64_ascii(b)[3] == 61,
        b.len() >= 3 ==> b64_ascii(b)[2] != 61 && b64_ascii(b)[3] != 61,
{
    if b.len() == 2 {
        sym_args_less_64(b[0], b[1], 0);
        lemma_b64_sym_range(((b[1] & 0x0f) << 2) as u8);
    } else if b.len() >= 3 {
        sym_args_less_64(b[0], b[1], b[2]);
        lemma_b64_sym_range((((b[1] & 0x0f) << 2) | (b[2] >> 6)) as u8);
        lemma_b64_sym_range((b[2] & 0x3f) as u8);
    }
}

/// Relies on `base64ct::Base64::encode_string`: standard Base64 with `=`
/// padding, one symbol per 6 bits.
#[verifier::external_body]
pub(crate) fn b64_encode(b: &[u8]) -> (r: Vec<u8>)
    requires
        b@.len() <= usize::MAX / 8,
    ensures
        r@ == b64_ascii(b@),
{
    base64ct::Base64::encode_string(b).into_bytes()
}

/// Relies on `base64ct::Base64::decode_vec`: strict decoding that accepts
/// exactly the canonical padded encodings and inverts the encoder.
#[verifier::external_body]
pub(crate) fn b64_decode(s: &[u8]) -> (r: Result<Vec<u8>, ()>)
    ensures
        r matches Ok(v) ==> s@ == b64_ascii(v@),
        r is Err ==> forall|b: Seq<u8>| s@ != b64_ascii(b),
{
    match core::str::from_utf8(s) {
        Ok(t) => base64ct::Base64::decode_vec(t).map_err(|_| ()),
        Err(_) => Err(()),
    }
}

} // verus!
