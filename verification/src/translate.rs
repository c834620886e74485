//! The boundary translator.
//!
//! Stateless scans that map a character ordinal index to the byte offset
//! where that character's encoding starts, count characters, locate the
//! start of the last character, and validate raw bytes. Forward scans decode
//! one lead byte at a time from offset 0; the backward scan for the last
//! character steps over continuation bytes. No cache of boundaries is kept:
//! every call is linear in the distance scanned.

use vstd::prelude::*;
use vstd::utf8::*;

use crate::codec::{
    lemma_decoded_is_scalar, lemma_encode_single, lemma_encode_take_skip, lemma_encoded_len,
    lemma_scalar_byte_shape, lemma_scan_step,
};

verus! {

/// Byte offset at which the encoding of character `i` of `chars` starts
/// (equivalently: the encoded length of the first `i` characters).
pub open spec fn byte_pos_spec(chars: Seq<char>, i: int) -> int {
    encode_utf8(chars.take(i)).len() as int
}

/// `bytes` is well formed up to offset `o` and the bytes from `o` on do not
/// begin with any well-formed scalar encoding: `o` is the offset of the
/// first invalid sequence.
pub open spec fn first_invalid_at(bytes: Seq<u8>, o: int) -> bool {
    &&& partial_valid_utf8(bytes, o)
    &&& o < bytes.len()
    &&& !valid_first_scalar(bytes.subrange(o, bytes.len() as int))
}

/// Dropping a valid prefix from a valid encoding leaves a valid encoding.
proof fn lemma_valid_drop_prefix(x: Seq<u8>, y: Seq<u8>)
    requires
        valid_utf8(x + y),
        valid_utf8(x),
    ensures
        valid_utf8(y),
    decreases x.len(),
{
    if x.len() == 0 {
        assert(x + y =~= y);
    } else {
        assert((x + y)[0] == x[0]);
        assert((x + y).len() != 0);
        let n = length_of_first_scalar(x);
        assert(length_of_first_scalar(x + y) == n);
        assert(pop_first_scalar(x + y) =~= pop_first_scalar(x) + y);
        lemma_valid_drop_prefix(pop_first_scalar(x), y);
    }
}

/// A byte sequence that begins with a well-formed scalar encoding still
/// does when extended on the right.
proof fn lemma_first_scalar_extend(s: Seq<u8>, t: Seq<u8>)
    requires
        s.len() > 0,
        valid_first_scalar(s),
        s.len() <= t.len(),
        t.subrange(0, s.len() as int) == s,
    ensures
        valid_first_scalar(t),
        decode_first_scalar(t) == decode_first_scalar(s),
        length_of_first_scalar(t) == length_of_first_scalar(s),
{
    assert(forall|i: int| 0 <= i < s.len() ==> t[i] == #[trigger] s[i]) by {
        assert(forall|i: int|
            0 <= i < s.len() ==> #[trigger] s[i] == t.subrange(0, s.len() as int)[i]);
    }
    lemma_decoded_is_scalar(s);
}

/// The byte offset of the first invalid sequence is uniquely determined by
/// the bytes: the contract of checked construction pins the reported offset.
pub proof fn lemma_first_invalid_unique(bytes: Seq<u8>, o1: int, o2: int)
    requires
        first_invalid_at(bytes, o1),
        first_invalid_at(bytes, o2),
    ensures
        o1 == o2,
{
    if o1 < o2 {
        lemma_first_invalid_order(bytes, o1, o2);
    }
    if o2 < o1 {
        lemma_first_invalid_order(bytes, o2, o1);
    }
}

/// No later offset can have a valid prefix once an earlier boundary fails
/// to begin a scalar.
proof fn lemma_first_invalid_order(bytes: Seq<u8>, o1: int, o2: int)
    requires
        first_invalid_at(bytes, o1),
        o1 < o2 <= bytes.len(),
    ensures
        !partial_valid_utf8(bytes, o2),
{
    if partial_valid_utf8(bytes, o2) {
        let x = bytes.subrange(0, o1);
        let y = bytes.subrange(o1, o2);
        assert(bytes.subrange(0, o2) =~= x + y);
        lemma_valid_drop_prefix(x, y);
        assert(y.len() > 0);
        assert(valid_first_scalar(y));
        let t = bytes.subrange(o1, bytes.len() as int);
        assert(t.subrange(0, y.len() as int) =~= y);
        lemma_first_scalar_extend(y, t);
    }
}

/// A prefix of the characters cannot fill the whole encoding.
pub(crate) proof fn lemma_take_len_full(s: Seq<char>, i: int)
    requires
        0 <= i <= s.len(),
        encode_utf8(s.take(i)).len() == encode_utf8(s).len(),
    ensures
        i == s.len(),
{
    if i < s.len() {
        lemma_scan_step(s, i);
        lemma_encode_take_skip(s, i + 1);
        assert(false);
    }
    assert(s.take(i) =~= s);
}

/// Number of bytes in the scalar encoding that starts at offset `pos`.
pub fn scalar_len_at(v: &Vec<u8>, pos: usize) -> (r: usize)
    requires
        pos < v@.len(),
        valid_first_scalar(v@.subrange(pos as int, v@.len() as int)),
    ensures
        r == length_of_first_scalar(v@.subrange(pos as int, v@.len() as int)),
        1 <= r <= 4,
        pos + r <= v@.len(),
{
    let ghost rest = v@.subrange(pos as int, v@.len() as int);
    proof {
        assert(rest[0] == v@[pos as int]);
        lemma_first_scalar_fits(rest);
    }
    let b0 = v[pos];
    if b0 < 0x80 {
        1
    } else if b0 < 0xE0 {
        2
    } else if b0 < 0xF0 {
        3
    } else {
        4
    }
}

/// A well-formed first scalar lies within the byte sequence.
pub(crate) proof fn lemma_first_scalar_fits(bytes: Seq<u8>)
    requires
        bytes.len() > 0,
        valid_first_scalar(bytes),
    ensures
        is_scalar(decode_first_scalar(bytes)),
        1 <= length_of_first_scalar(bytes) <= 4,
        length_of_first_scalar(bytes) <= bytes.len(),
{
    lemma_decoded_is_scalar(bytes);
}

/// Number of characters encoded in `v`.
pub fn char_count(v: &Vec<u8>) -> (r: usize)
    requires
        valid_utf8(v@),
    ensures
        r == decode_utf8(v@).len(),
{
    let ghost chars = decode_utf8(v@);
    proof {
        decode_utf8_encode_utf8(v@);
        lemma_encoded_len(chars);
    }
    let n = v.len();
    let mut pos: usize = 0;
    let mut count: usize = 0;
    while pos < n
        invariant
            valid_utf8(v@),
            encode_utf8(chars) == v@,
            chars == decode_utf8(v@),
            n == v@.len(),
            chars.len() <= n,
            count <= chars.len(),
            pos == byte_pos_spec(chars, count as int),
            pos <= n,
        decreases n - pos,
    {
        proof {
            if count == chars.len() {
                assert(chars.take(count as int) =~= chars);
            }
            lemma_scan_step(chars, count as int);
        }
        let step = scalar_len_at(v, pos);
        pos = pos + step;
        count = count + 1;
    }
    proof {
        lemma_take_len_full(chars, count as int);
    }
    count
}

/// Byte offset where the encoding of character `idx` starts (the total byte
/// length when `idx` is the character count).
pub fn byte_pos_of(v: &Vec<u8>, idx: usize) -> (r: usize)
    requires
        valid_utf8(v@),
        idx <= decode_utf8(v@).len(),
    ensures
        r == byte_pos_spec(decode_utf8(v@), idx as int),
        r <= v@.len(),
{
    let ghost chars = decode_utf8(v@);
    proof {
        decode_utf8_encode_utf8(v@);
    }
    let n = v.len();
    let mut pos: usize = 0;
    let mut count: usize = 0;
    while count < idx
        invariant
            valid_utf8(v@),
            encode_utf8(chars) == v@,
            chars == decode_utf8(v@),
            n == v@.len(),
            count <= idx <= chars.len(),
            pos == byte_pos_spec(chars, count as int),
            pos <= n,
        decreases idx - count,
    {
        proof {
            lemma_scan_step(chars, count as int);
            lemma_encode_take_skip(chars, count as int + 1);
        }
        let step = scalar_len_at(v, pos);
        pos = pos + step;
        count = count + 1;
    }
    pos
}

/// Byte offset where the encoding of the last character starts.
pub fn last_char_start(v: &Vec<u8>) -> (r: usize)
    requires
        valid_utf8(v@),
        v@.len() > 0,
    ensures
        ({
            let chars = decode_utf8(v@);
            &&& chars.len() > 0
            &&& r == byte_pos_spec(chars, chars.len() - 1)
            &&& r < v@.len()
        }),
{
    let ghost chars = decode_utf8(v@);
    let ghost last = chars.len() as int - 1;
    proof {
        decode_utf8_encode_utf8(v@);
        if chars.len() == 0 {
            assert(encode_utf8(chars) =~= Seq::<u8>::empty());
        }
        lemma_scan_step(chars, last);
        assert(chars.take(chars.len() as int) =~= chars);
        assert(chars.skip(last)[0] == chars[last]);
        char_is_scalar(chars[last]);
        lemma_scalar_byte_shape(chars[last] as u32);
    }
    let ghost pos0 = byte_pos_spec(chars, last);
    let ghost e = encode_scalar(chars[last] as u32);
    proof {
        assert(byte_pos_spec(chars, chars.len() as int) == v@.len());
        assert(pos0 + e.len() == v@.len());
        assert forall|j: int| pos0 < j < v@.len() implies is_continuation_byte(#[trigger] v@[j]) by {
            assert(v@.subrange(pos0, v@.len() as int) == encode_utf8(chars.skip(last)));
            lemma_encode_single(chars[last]);
            assert(chars.skip(last) =~= seq![chars[last]]);
            assert(v@[j] == e[j - pos0]);
        }
        assert(v@[pos0] == e[0]) by {
            assert(v@.subrange(pos0, v@.len() as int) == encode_utf8(chars.skip(last)));
            lemma_encode_single(chars[last]);
            assert(chars.skip(last) =~= seq![chars[last]]);
        }
    }
    let n = v.len();
    let mut i: usize = n - 1;
    while v[i] >= 0x80 && v[i] <= 0xBF
        invariant
            n == v@.len(),
            0 <= pos0 <= i < n,
            !is_continuation_byte(v@[pos0]),
            forall|j: int| pos0 < j < v@.len() ==> is_continuation_byte(#[trigger] v@[j]),
        decreases i,
    {
        proof {
            assert(is_continuation_byte(v@[i as int]));
            assert(i != pos0);
        }
        i = i - 1;
    }
    i
}

/// When the bytes at `pos` begin a well-formed scalar encoding, its length;
/// otherwise `None`.
pub fn try_scalar_at(v: &Vec<u8>, pos: usize) -> (r: Option<usize>)
    requires
        pos < v@.len(),
    ensures
        ({
            let rest = v@.subrange(pos as int, v@.len() as int);
            &&& (r matches Some(l) ==> valid_first_scalar(rest) && l == length_of_first_scalar(
                rest,
            ) && pos + l <= v@.len())
            &&& (r is None ==> !valid_first_scalar(rest))
        }),
{
    let n = v.len();
    let ghost rest = v@.subrange(pos as int, v@.len() as int);
    proof {
        assert(rest[0] == v@[pos as int]);
    }
    let b0 = v[pos];
    if b0 < 0x80 {
        proof {
            assert(codepoint_width_1(b0) <= 0x7F) by (bit_vector);
        }
        Some(1)
    } else if b0 < 0xC0 {
        None
    } else if b0 < 0xE0 {
        if pos + 1 >= n {
            return None;
        }
        let b1 = v[pos + 1];
        proof {
            assert(rest[1] == v@[pos as int + 1]);
        }
        if !(0x80 <= b1 && b1 <= 0xBF) {
            return None;
        }
        let cp: u32 = (((b0 & 0x1F) as u32) << 6u32) | ((b1 & 0x3F) as u32);
        proof {
            assert(codepoint_width_2(b0, b1) <= 0x7FF) by (bit_vector);
        }
        if cp >= 0x80 {
            Some(2)
        } else {
            None
        }
    } else if b0 < 0xF0 {
        if n - pos < 3 {
            return None;
        }
        let b1 = v[pos + 1];
        let b2 = v[pos + 2];
        proof {
            assert(rest[1] == v@[pos as int + 1]);
            assert(rest[2] == v@[pos as int + 2]);
        }
        if !(0x80 <= b1 && b1 <= 0xBF) || !(0x80 <= b2 && b2 <= 0xBF) {
            return None;
        }
        let cp: u32 = ((((b0 & 0x0F) as u32) << 12u32) | (((b1 & 0x3F) as u32) << 6u32)) | ((b2
            & 0x3F) as u32);
        if cp >= 0x800 && !(0xD800 <= cp && cp <= 0xDFFF) {
            Some(3)
        } else {
            None
        }
    } else if b0 < 0xF8 {
        if n - pos < 4 {
            return None;
        }
        let b1 = v[pos + 1];
        let b2 = v[pos + 2];
        let b3 = v[pos + 3];
        proof {
            assert(rest[1] == v@[pos as int + 1]);
            assert(rest[2] == v@[pos as int + 2]);
            assert(rest[3] == v@[pos as int + 3]);
        }
        if !(0x80 <= b1 && b1 <= 0xBF) || !(0x80 <= b2 && b2 <= 0xBF) || !(0x80 <= b3 && b3
            <= 0xBF) {
            return None;
        }
        let cp: u32 = (((((b0 & 0x07) as u32) << 18u32) | (((b1 & 0x3F) as u32) << 12u32)) | (((b2
            & 0x3F) as u32) << 6u32)) | ((b3 & 0x3F) as u32);
        if 0x10000 <= cp && cp <= 0x10FFFF {
            Some(4)
        } else {
            None
        }
    } else {
        None
    }
}

/// Scan the whole byte sequence: `None` when it is a valid UTF-8 encoding,
/// otherwise the byte offset of the first invalid sequence.
pub fn validate(v: &Vec<u8>) -> (r: Option<usize>)
    ensures
        r is None <==> valid_utf8(v@),
        r matches Some(o) ==> first_invalid_at(v@, o as int),
{
    let n = v.len();
    let mut pos: usize = 0;
    while pos < n
        invariant
            n == v@.len(),
            pos <= n,
            partial_valid_utf8(v@, pos as int),
        decreases n - pos,
    {
        match try_scalar_at(v, pos) {
            Some(step) => {
                proof {
                    partial_valid_utf8_extend(v@, pos as int);
                }
                pos = pos + step;
            },
            None => {
                proof {
                    let sub = v@.subrange(pos as int, v@.len() as int);
                    assert(sub.len() > 0);
                    assert(!valid_utf8(sub));
                    partial_valid_partial_invalid_utf8(v@, pos as int);
                }
                return Some(pos);
            },
        }
    }
    proof {
        assert(v@.subrange(0, n as int) =~= v@);
    }
    None
}

} // verus!
