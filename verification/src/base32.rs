//! Fixed-radix packing of raw bytes into 5-bit symbols and the
//! human-friendly 32-symbol alphabet used to display them.

use vstd::prelude::*;

use crate::strutil::{all_ascii, ascii_chars_of, ascii_string};

verus! {

/// The eight 5-bit values packed from one 5-byte block.
pub open spec fn spec_encode_block(q: Seq<u8>) -> Seq<u8>
    recommends
        q.len() == 5,
{
    seq![
        (q[0] >> 3) as u8,
        (((q[0] & 0x07) << 2) | (q[1] >> 6)) as u8,
        ((q[1] & 0x3e) >> 1) as u8,
        (((q[1] & 0x01) << 4) | (q[2] >> 4)) as u8,
        (((q[2] & 0x0f) << 1) | (q[3] >> 7)) as u8,
        ((q[3] & 0x7c) >> 2) as u8,
        (((q[3] & 0x03) << 3) | (q[4] >> 5)) as u8,
        (q[4] & 0x1f) as u8,
    ]
}

/// The 5-bit symbols of a whole input, block by block.
pub open spec fn spec_encode(input: Seq<u8>) -> Seq<u8>
    decreases input.len(),
{
    if input.len() < 5 {
        seq![]
    } else {
        spec_encode_block(input.take(5)) + spec_encode(input.skip(5))
    }
}

proof fn lemma_encode_snoc(s: Seq<u8>, block: Seq<u8>)
    requires
        s.len() % 5 == 0,
        block.len() == 5,
    ensures
        spec_encode(s + block) == spec_encode(s) + spec_encode_block(block),
    decreases s.len(),
{
    if s.len() == 0 {
        let t = s + block;
        assert(t.len() == 5);
        assert(t.take(5) =~= block);
        assert(t.skip(5) =~= Seq::<u8>::empty());
        assert(spec_encode(t) == spec_encode_block(t.take(5)) + spec_encode(t.skip(5)));
        assert(spec_encode(Seq::<u8>::empty()) == Seq::<u8>::empty());
        assert(spec_encode(t) =~= spec_encode_block(block));
        assert(spec_encode(s) == Seq::<u8>::empty());
        assert(spec_encode(s) + spec_encode_block(block) =~= spec_encode_block(block));
    } else {
        let t = s + block;
        assert(t.take(5) =~= s.take(5));
        assert(t.skip(5) =~= s.skip(5) + block);
        lemma_encode_snoc(s.skip(5), block);
        assert(spec_encode(s).skip(8) == spec_encode(s.skip(5))) by {
            assert(spec_encode(s) == spec_encode_block(s.take(5)) + spec_encode(s.skip(5)));
            assert(spec_encode_block(s.take(5)).len() == 8);
            assert((spec_encode_block(s.take(5)) + spec_encode(s.skip(5))).skip(8) =~= spec_encode(
                s.skip(5),
            ));
        }
        assert(spec_encode(s + block) =~= spec_encode(s) + spec_encode_block(block));
    }
}

/// Every packed symbol is a 5-bit value.
pub proof fn lemma_encode_block_in_range(q: Seq<u8>)
    requires
        q.len() == 5,
    ensures
        forall|i: int| 0 <= i < 8 ==> spec_encode_block(q)[i] < 32,
{
    let q0 = q[0];
    let q1 = q[1];
    let q2 = q[2];
    let q3 = q[3];
    let q4 = q[4];
    assert((q0 >> 3) < 32 && (((q0 & 0x07) << 2) | (q1 >> 6)) < 32 && ((q1 & 0x3e) >> 1) < 32
        && (((q1 & 0x01) << 4) | (q2 >> 4)) < 32 && (((q2 & 0x0f) << 1) | (q3 >> 7)) < 32 && ((q3
        & 0x7c) >> 2) < 32 && (((q3 & 0x03) << 3) | (q4 >> 5)) < 32 && (q4 & 0x1f) < 32)
        by (bit_vector);
}

pub proof fn lemma_encode_in_range(input: Seq<u8>)
    ensures
        forall|i: int| 0 <= i < spec_encode(input).len() ==> spec_encode(input)[i] < 32,
    decreases input.len(),
{
    if input.len() >= 5 {
        lemma_encode_block_in_range(input.take(5));
        lemma_encode_in_range(input.skip(5));
        let head = spec_encode_block(input.take(5));
        let tail = spec_encode(input.skip(5));
        assert(spec_encode(input) == head + tail);
        assert forall|i: int| 0 <= i < spec_encode(input).len() implies spec_encode(input)[i]
            < 32 by {
            if i < 8 {
                assert(spec_encode(input)[i] == head[i]);
            } else {
                assert(spec_encode(input)[i] == tail[i - 8]);
            }
        }
    }
}

fn output_size(input_size: usize) -> (r: usize)
    requires
        input_size + 4 <= usize::MAX,
        8 * ((input_size + 4) / 5) <= usize::MAX,
    ensures
        r == 8 * ((input_size + 4) / 5),
{
    8 * ((input_size + 4) / 5)
}

fn encode_block(q: &[u8], r: &mut Vec<u8>)
    requires
        q@.len() == 5,
    ensures
        final(r)@ == old(r)@ + spec_encode_block(q@),
{
    r.push(q[0] >> 3);
    r.push(((q[0] & 0x07) << 2) | (q[1] >> 6));
    r.push((q[1] & 0x3e) >> 1);
    r.push(((q[1] & 0x01) << 4) | (q[2] >> 4));
    r.push(((q[2] & 0x0f) << 1) | (q[3] >> 7));
    r.push((q[3] & 0x7c) >> 2);
    r.push(((q[3] & 0x03) << 3) | (q[4] >> 5));
    r.push(q[4] & 0x1f);
    proof {
        assert(final(r)@ =~= old(r)@ + spec_encode_block(q@));
    }
}

/// Packs each consecutive 5-byte block of `input` into 8 5-bit symbols,
/// overwriting `output`.  The caller supplies an input whose length is a
/// multiple of 5 and a buffer of exactly the packed size.
pub fn encode(input: &[u8], output: &mut Vec<u8>)
    requires
        input@.len() % 5 == 0,
        old(output)@.len() == 8 * (input@.len() / 5),
    ensures
        final(output)@ == spec_encode(input@),
        final(output)@.len() == 8 * (input@.len() / 5),
{
    output.clear();
    let n = input.len() / 5;
    let mut i: usize = 0;
    while i < n
        invariant
            n == input@.len() / 5,
            input@.len() % 5 == 0,
            input@.len() <= usize::MAX,
            i <= n,
            output@ == spec_encode(input@.take(5 * i)),
            output@.len() == 8 * i,
        decreases n - i,
    {
        let block = &input[i * 5..i * 5 + 5];
        encode_block(block, output);
        proof {
            let s = input@.take(5 * i);
            assert(s.len() % 5 == 0);
            assert(input@.take(5 * (i + 1)) =~= s + block@);
            lemma_encode_snoc(s, block@);
        }
        i = i + 1;
    }
    proof {
        assert(input@.take(5 * n) =~= input@);
    }
}

/// The 32-symbol display alphabet: digits and lower-case letters, omitting
/// the visually ambiguous i, l, o and u.
pub open spec fn crockford_table() -> Seq<u8> {
    seq![
        0x30u8, 0x31u8, 0x32u8, 0x33u8, 0x34u8, 0x35u8, 0x36u8, 0x37u8, 0x38u8, 0x39u8,
        0x61u8, 0x62u8, 0x63u8, 0x64u8, 0x65u8, 0x66u8, 0x67u8, 0x68u8, 0x6Au8, 0x6Bu8,
        0x6Du8, 0x6Eu8, 0x70u8, 0x71u8, 0x72u8, 0x73u8, 0x74u8, 0x76u8, 0x77u8, 0x78u8,
        0x79u8, 0x7Au8,
    ]
}

/// The alphabet byte that displays one 5-bit value.
pub open spec fn spec_crockford_byte(v: u8) -> u8
    recommends
        v < 32,
{
    crockford_table()[v as int]
}

/// The alphabet bytes that display a sequence of 5-bit values.
pub open spec fn spec_crockford(s: Seq<u8>) -> Seq<u8> {
    Seq::new(s.len(), |i: int| spec_crockford_byte(s[i]))
}

/// Every alphabet byte is ASCII.
pub proof fn lemma_crockford_ascii(s: Seq<u8>)
    requires
        forall|i: int| 0 <= i < s.len() ==> s[i] < 32,
    ensures
        all_ascii(spec_crockford(s)),
{
    assert forall|i: int| 0 <= i < s.len() implies spec_crockford(s)[i] < 0x80 by {
        assert(s[i] < 32);
        assert(crockford_table()[s[i] as int] < 0x80);
    }
}

fn crockford_table_bytes() -> (r: [u8; 32])
    ensures
        r@ == crockford_table(),
{
    let table: [u8; 32] = [
        0x30, 0x31, 0x32, 0x33, 0x34, 0x35, 0x36, 0x37, 0x38, 0x39, 0x61, 0x62,
        0x63, 0x64, 0x65, 0x66, 0x67, 0x68, 0x6A, 0x6B, 0x6D, 0x6E, 0x70, 0x71,
        0x72, 0x73, 0x74, 0x76, 0x77, 0x78, 0x79, 0x7A,
    ];
    proof {
        assert(table@ =~= crockford_table());
    }
    table
}

/// Maps each 5-bit value of `input` to its alphabet byte, overwriting
/// `output`.  The caller supplies only 5-bit values and an equally long
/// buffer.
pub fn crockford(input: &[u8], output: &mut Vec<u8>)
    requires
        forall|i: int| 0 <= i < input@.len() ==> input@[i] < 32,
        old(output)@.len() == input@.len(),
    ensures
        final(output)@ == spec_crockford(input@),
{
    let table = crockford_table_bytes();
    output.clear();
    let n = input.len();
    let mut i: usize = 0;
    while i < n
        invariant
            n == input@.len(),
            i <= n,
            forall|j: int| 0 <= j < input@.len() ==> input@[j] < 32,
            table@ == crockford_table(),
            output@ =~= spec_crockford(input@).take(i as int),
        decreases n - i,
    {
        output.push(table[input[i] as usize]);
        i = i + 1;
    }
    proof {
        assert(spec_crockford(input@).take(n as int) =~= spec_crockford(input@));
    }
}

/// The display string for a sequence of 5-bit values.
pub fn to_crockford(input: &[u8]) -> (r: String)
    requires
        forall|i: int| 0 <= i < input@.len() ==> input@[i] < 32,
    ensures
        r@ == ascii_chars_of(spec_crockford(input@)),
        r@.len() == input@.len(),
        vstd::utf8::is_ascii_chars(r@),
{
    let mut buffer: Vec<u8> = vec_zeroed(input.len());
    crockford(input, &mut buffer);
    proof {
        lemma_crockford_ascii(input@);
    }
    ascii_string(buffer)
}

/// A zero-filled byte vector of the given length.
pub fn vec_zeroed(n: usize) -> (r: Vec<u8>)
    ensures
        r@.len() == n,
        forall|i: int| 0 <= i < n ==> r@[i] == 0u8,
{
    let mut v: Vec<u8> = Vec::new();
    let mut i: usize = 0;
    while i < n
        invariant
            i <= n,
            v@.len() == i,
            forall|j: int| 0 <= j < i ==> v@[j] == 0u8,
        decreases n - i,
    {
        v.push(0u8);
        i = i + 1;
    }
    v
}

} // verus!
