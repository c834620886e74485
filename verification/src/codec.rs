//! Character-level UTF-8 encoding and decoding.
//!
//! The specification side builds on `vstd::utf8`: a string's mathematical
//! content is a `Seq<char>`, its storage is the byte sequence
//! `encode_utf8(chars)`, and `decode_utf8` recovers the content from the
//! bytes. This module adds the algebraic facts the rest of the crate needs
//! (concatenation, length accounting, per-scalar byte shapes) and the
//! executable encoder and decoder for a single Unicode scalar.

use vstd::prelude::*;
use vstd::utf8::*;

verus! {

/// Number of bytes in the UTF-8 encoding of one character.
pub open spec fn scalar_len(c: char) -> int {
    encode_scalar(c as u32).len() as int
}

/// Sum of the UTF-8 encoded lengths of the characters of `chars`.
pub open spec fn encoded_len(chars: Seq<char>) -> int
    decreases chars.len(),
{
    if chars.len() == 0 {
        0
    } else {
        scalar_len(chars[0]) + encoded_len(chars.drop_first())
    }
}

/// Every character encodes to between 1 and 4 bytes.
pub proof fn lemma_scalar_len_range(c: char)
    ensures
        1 <= scalar_len(c) <= 4,
{
    char_is_scalar(c);
}

/// Encoding a concatenation is the concatenation of the encodings.
pub proof fn lemma_encode_concat(s1: Seq<char>, s2: Seq<char>)
    ensures
        encode_utf8(s1 + s2) == encode_utf8(s1) + encode_utf8(s2),
    decreases s1.len(),
{
    if s1.len() == 0 {
        assert(s1 + s2 =~= s2);
        assert(encode_utf8(s1) + encode_utf8(s2) =~= encode_utf8(s2));
    } else {
        assert((s1 + s2).drop_first() =~= s1.drop_first() + s2);
        lemma_encode_concat(s1.drop_first(), s2);
        assert(encode_utf8(s1 + s2) =~= encode_utf8(s1) + encode_utf8(s2));
    }
}

/// Splitting a character sequence at `i` splits its encoding.
pub proof fn lemma_encode_take_skip(s: Seq<char>, i: int)
    requires
        0 <= i <= s.len(),
    ensures
        encode_utf8(s) == encode_utf8(s.take(i)) + encode_utf8(s.skip(i)),
        encode_utf8(s.take(i)).len() <= encode_utf8(s).len(),
{
    assert(s =~= s.take(i) + s.skip(i));
    lemma_encode_concat(s.take(i), s.skip(i));
}

/// The encoding of a single character is the scalar encoding of that character.
pub proof fn lemma_encode_single(c: char)
    ensures
        encode_utf8(seq![c]) == encode_scalar(c as u32),
{
    assert(seq![c].drop_first() =~= Seq::<char>::empty());
    assert(encode_utf8(seq![c].drop_first()) == Seq::<u8>::empty());
    assert(encode_scalar(c as u32) + Seq::<u8>::empty() =~= encode_scalar(c as u32));
    assert(seq![c][0] == c);
}

/// The byte length of an encoding is the sum of the per-character encoded
/// lengths, and is at least the number of characters (each character takes
/// at least one byte) and at most four bytes per character.
pub proof fn lemma_encoded_len(s: Seq<char>)
    ensures
        encode_utf8(s).len() == encoded_len(s),
        s.len() <= encoded_len(s) <= 4 * s.len(),
    decreases s.len(),
{
    if s.len() == 0 {
    } else {
        lemma_scalar_len_range(s[0]);
        lemma_encoded_len(s.drop_first());
    }
}

/// At the byte offset where the first `i` characters of `v` end, the
/// remaining bytes are exactly the encoding of the remaining characters,
/// they begin with a well-formed scalar encoding of `v[i]`, and consuming
/// that scalar advances the offset to where the first `i + 1` characters end.
pub proof fn lemma_scan_step(v: Seq<char>, i: int)
    requires
        0 <= i < v.len(),
    ensures
        ({
            let b = encode_utf8(v);
            let pos = encode_utf8(v.take(i)).len() as int;
            let rest = b.subrange(pos, b.len() as int);
            &&& pos + encode_scalar(v[i] as u32).len() <= b.len()
            &&& rest == encode_utf8(v.skip(i))
            &&& rest.len() > 0
            &&& valid_first_scalar(rest)
            &&& length_of_first_scalar(rest) == encode_scalar(v[i] as u32).len()
            &&& decode_first_scalar(rest) == v[i] as u32
            &&& encode_utf8(v.take(i + 1)).len() == pos + encode_scalar(v[i] as u32).len()
        }),
{
    let b = encode_utf8(v);
    let pos = encode_utf8(v.take(i)).len() as int;
    lemma_encode_take_skip(v, i);
    assert(b.subrange(pos, b.len() as int) =~= encode_utf8(v.skip(i)));
    assert(v.skip(i)[0] == v[i]);
    encode_utf8_first_scalar(v.skip(i));
    lemma_scalar_len_range(v[i]);
    assert(encode_utf8(v.skip(i)).len() >= encode_scalar(v[i] as u32).len()) by {
        assert(v.skip(i).drop_first() =~= v.skip(i + 1));
        lemma_encoded_len(v.skip(i));
        lemma_encoded_len(v.skip(i + 1));
    }
    assert(v.take(i + 1) =~= v.take(i) + seq![v[i]]);
    lemma_encode_concat(v.take(i), seq![v[i]]);
    lemma_encode_single(v[i]);
}

/// The suffix of a valid encoding that starts where the first `i` characters
/// end is itself a valid encoding, of the remaining characters.
pub proof fn lemma_suffix_valid(v: Seq<char>, i: int)
    requires
        0 <= i <= v.len(),
    ensures
        ({
            let b = encode_utf8(v);
            let pos = encode_utf8(v.take(i)).len() as int;
            &&& 0 <= pos <= b.len()
            &&& b.subrange(pos, b.len() as int) == encode_utf8(v.skip(i))
            &&& valid_utf8(b.subrange(pos, b.len() as int))
            &&& decode_utf8(b.subrange(pos, b.len() as int)) == v.skip(i)
        }),
{
    let b = encode_utf8(v);
    let pos = encode_utf8(v.take(i)).len() as int;
    lemma_encode_take_skip(v, i);
    assert(b.subrange(pos, b.len() as int) =~= encode_utf8(v.skip(i)));
    encode_utf8_valid_utf8(v.skip(i));
    encode_utf8_decode_utf8(v.skip(i));
}

/// In the encoding of one scalar, the first byte is not a continuation byte
/// and every later byte is one.
pub proof fn lemma_scalar_byte_shape(s: u32)
    requires
        is_scalar(s),
    ensures
        ({
            let e = encode_scalar(s);
            &&& !is_continuation_byte(e[0])
            &&& forall|j: int| 1 <= j < e.len() ==> is_continuation_byte(#[trigger] e[j])
        }),
{
    if has_width_1_encoding(s) {
        assert(!is_continuation_byte(leading_byte_width_1(s))) by (bit_vector)
            requires has_width_1_encoding(s),
        ;
    } else if has_width_2_encoding(s) {
        assert(!is_continuation_byte(leading_byte_width_2(s)) && is_continuation_byte(
            last_continuation_byte(s),
        )) by (bit_vector);
    } else if has_width_3_encoding(s) {
        assert(!is_continuation_byte(leading_byte_width_3(s)) && is_continuation_byte(
            last_continuation_byte(s),
        ) && is_continuation_byte(second_last_continuation_byte(s))) by (bit_vector);
    } else {
        assert(!is_continuation_byte(leading_byte_width_4(s)) && is_continuation_byte(
            last_continuation_byte(s),
        ) && is_continuation_byte(second_last_continuation_byte(s)) && is_continuation_byte(
            third_last_continuation_byte(s),
        )) by (bit_vector);
    }
}

/// Relies on `char::from_u32`: it returns `Some` exactly for Unicode scalar
/// values (code points outside the surrogate range and at most 0x10FFFF),
/// and the returned character has the given value.
#[verifier::external_body]
fn char_from_scalar(v: u32) -> (r: Option<char>)
    ensures
        r is Some <==> is_scalar(v),
        r matches Some(c) ==> c as u32 == v,
{
    char::from_u32(v)
}

/// Encode one character into its 1 to 4 UTF-8 bytes.
pub fn encode_char(c: char) -> (r: Vec<u8>)
    ensures
        r@ == encode_scalar(c as u32),
        1 <= r@.len() <= 4,
{
    let x = c as u32;
    proof {
        char_is_scalar(c);
    }
    let mut r: Vec<u8> = Vec::new();
    if x <= 0x7F {
        r.push((x & 0x7F) as u8);
    } else if x <= 0x7FF {
        r.push(0xC0u8 | ((x >> 6u32) & 0x1F) as u8);
        r.push(0x80u8 | (x & 0x3F) as u8);
    } else if x <= 0xFFFF {
        r.push(0xE0u8 | ((x >> 12u32) & 0x0F) as u8);
        r.push(0x80u8 | ((x >> 6u32) & 0x3F) as u8);
        r.push(0x80u8 | (x & 0x3F) as u8);
    } else {
        r.push(0xF0u8 | ((x >> 18u32) & 0x7) as u8);
        r.push(0x80u8 | ((x >> 12u32) & 0x3F) as u8);
        r.push(0x80u8 | ((x >> 6u32) & 0x3F) as u8);
        r.push(0x80u8 | (x & 0x3F) as u8);
    }
    proof {
        assert(r@ =~= encode_scalar(c as u32));
    }
    r
}

/// Decode the scalar whose encoding starts at byte offset `pos` of `v`.
/// Returns the character and the number of bytes its encoding occupies.
pub fn decode_char_at(v: &Vec<u8>, pos: usize) -> (r: (char, usize))
    requires
        pos < v@.len(),
        valid_utf8(v@.subrange(pos as int, v@.len() as int)),
    ensures
        ({
            let rest = v@.subrange(pos as int, v@.len() as int);
            &&& r.0 as u32 == decode_first_scalar(rest)
            &&& r.1 == length_of_first_scalar(rest)
            &&& 1 <= r.1 <= 4
            &&& pos + r.1 <= v@.len()
        }),
{
    let n = v.len();
    let ghost rest = v@.subrange(pos as int, v@.len() as int);
    proof {
        assert(rest.len() > 0);
        assert(valid_first_scalar(rest));
    }
    let b0 = v[pos];
    proof {
        assert(rest[0] == v@[pos as int]);
    }
    let (value, width): (u32, usize) = if b0 < 0x80 {
        ((b0 & 0x7F) as u32, 1)
    } else if b0 < 0xE0 {
        let b1 = v[pos + 1];
        proof {
            assert(rest[1] == v@[pos as int + 1]);
        }
        (((((b0 & 0x1F) as u32) << 6u32) | ((b1 & 0x3F) as u32)), 2)
    } else if b0 < 0xF0 {
        let b1 = v[pos + 1];
        let b2 = v[pos + 2];
        proof {
            assert(rest[1] == v@[pos as int + 1]);
            assert(rest[2] == v@[pos as int + 2]);
        }
        (
            ((((b0 & 0x0F) as u32) << 12u32) | (((b1 & 0x3F) as u32) << 6u32) | ((b2
                & 0x3F) as u32)),
            3,
        )
    } else {
        let b1 = v[pos + 1];
        let b2 = v[pos + 2];
        let b3 = v[pos + 3];
        proof {
            assert(rest[1] == v@[pos as int + 1]);
            assert(rest[2] == v@[pos as int + 2]);
            assert(rest[3] == v@[pos as int + 3]);
        }
        (
            ((((b0 & 0x07) as u32) << 18u32) | (((b1 & 0x3F) as u32) << 12u32) | (((b2
                & 0x3F) as u32) << 6u32) | ((b3 & 0x3F) as u32)),
            4,
        )
    };
    proof {
        assert(value == decode_first_scalar(rest));
        assert(width == length_of_first_scalar(rest));
        lemma_decoded_is_scalar(rest);
    }
    let c = char_from_scalar(value);
    (c.unwrap(), width)
}

/// A well-formed first scalar of a valid sequence decodes to a Unicode
/// scalar value, and its encoding lies within the sequence.
pub(crate) proof fn lemma_decoded_is_scalar(bytes: Seq<u8>)
    requires
        bytes.len() > 0,
        valid_first_scalar(bytes),
    ensures
        is_scalar(decode_first_scalar(bytes)),
        length_of_first_scalar(bytes) <= bytes.len(),
{
    let b0 = bytes[0];
    if is_leading_byte_width_1(b0) {
        assert(has_width_1_encoding(codepoint_width_1(b0))) by (bit_vector)
            requires is_leading_byte_width_1(b0),
        ;
    } else if is_leading_byte_width_2(b0) {
        let b1 = bytes[1];
        let c = codepoint_width_2(b0, b1);
        assert(is_continuation_byte(b1));
        assert(c <= 0x7FF) by (bit_vector)
            requires
                c == codepoint_width_2(b0, b1),
                is_leading_byte_width_2(b0),
                is_continuation_byte(b1),
        ;
    } else if is_leading_byte_width_3(b0) {
        let b1 = bytes[1];
        let b2 = bytes[2];
        let c = codepoint_width_3(b0, b1, b2);
        assert(c <= 0xFFFF) by (bit_vector)
            requires
                c == codepoint_width_3(b0, b1, b2),
                is_leading_byte_width_3(b0),
                is_continuation_byte(b1),
                is_continuation_byte(b2),
        ;
    } else {
        let b1 = bytes[1];
        let b2 = bytes[2];
        let b3 = bytes[3];
        let c = codepoint_width_4(b0, b1, b2, b3);
        assert(c <= 0x1FFFFF) by (bit_vector)
            requires
                c == codepoint_width_4(b0, b1, b2, b3),
                is_leading_byte_width_4(b0),
                is_continuation_byte(b1),
                is_continuation_byte(b2),
                is_continuation_byte(b3),
        ;
    }
}

} // verus!
