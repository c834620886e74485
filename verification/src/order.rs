//! Content-based comparison.
//!
//! Equality, ordering and hashing of strings are defined purely over decoded
//! text content. The executable comparison works bytewise on the stored
//! encodings; this module proves that on valid UTF-8 encodings the bytewise
//! lexicographic order coincides with the lexicographic order of the decoded
//! codepoint sequences, so comparing bytes is comparing text.

use vstd::prelude::*;
use vstd::utf8::*;

verus! {

/// Bytewise lexicographic order on byte sequences; independent of the
/// allocation strategy and capacity of the buffers that hold the bytes.
pub open spec fn lex_cmp_bytes(a: Seq<u8>, b: Seq<u8>) -> core::cmp::Ordering
    decreases a.len(),
{
    if a.len() == 0 && b.len() == 0 {
        core::cmp::Ordering::Equal
    } else if a.len() == 0 {
        core::cmp::Ordering::Less
    } else if b.len() == 0 {
        core::cmp::Ordering::Greater
    } else if a[0] < b[0] {
        core::cmp::Ordering::Less
    } else if a[0] > b[0] {
        core::cmp::Ordering::Greater
    } else {
        lex_cmp_bytes(a.drop_first(), b.drop_first())
    }
}

/// Lexicographic order on character sequences, by codepoint value.
pub open spec fn lex_cmp_chars(a: Seq<char>, b: Seq<char>) -> core::cmp::Ordering
    decreases a.len(),
{
    if a.len() == 0 && b.len() == 0 {
        core::cmp::Ordering::Equal
    } else if a.len() == 0 {
        core::cmp::Ordering::Less
    } else if b.len() == 0 {
        core::cmp::Ordering::Greater
    } else if (a[0] as u32) < (b[0] as u32) {
        core::cmp::Ordering::Less
    } else if (a[0] as u32) > (b[0] as u32) {
        core::cmp::Ordering::Greater
    } else {
        lex_cmp_chars(a.drop_first(), b.drop_first())
    }
}

/// Two byte sequences compare equal exactly when they are the same sequence.
pub proof fn lemma_lex_eq(a: Seq<u8>, b: Seq<u8>)
    ensures
        (lex_cmp_bytes(a, b) == core::cmp::Ordering::Equal) <==> a == b,
    decreases a.len(),
{
    if a.len() == 0 && b.len() == 0 {
        assert(a =~= b);
    } else if a.len() == 0 || b.len() == 0 {
        assert(a.len() != b.len());
    } else if a[0] == b[0] {
        lemma_lex_eq(a.drop_first(), b.drop_first());
        if a.drop_first() == b.drop_first() {
            assert forall|k: int| 0 <= k < a.len() implies a[k] == b[k] by {
                if k > 0 {
                    assert(a[k] == a.drop_first()[k - 1]);
                    assert(b[k] == b.drop_first()[k - 1]);
                }
            }
            assert(a =~= b);
        }
    } else {
        assert(a != b);
    }
}

/// Swapping the operands swaps the verdict.
proof fn lemma_lex_antisym(a: Seq<u8>, b: Seq<u8>)
    ensures
        lex_cmp_bytes(a, b) == core::cmp::Ordering::Less <==> lex_cmp_bytes(b, a)
            == core::cmp::Ordering::Greater,
    decreases a.len(),
{
    if a.len() != 0 && b.len() != 0 && a[0] == b[0] {
        lemma_lex_antisym(a.drop_first(), b.drop_first());
    }
}

/// Comparison ignores a shared prefix.
proof fn lemma_lex_strip(x: Seq<u8>, a: Seq<u8>, b: Seq<u8>)
    ensures
        lex_cmp_bytes(x + a, x + b) == lex_cmp_bytes(a, b),
    decreases x.len(),
{
    if x.len() == 0 {
        assert(x + a =~= a);
        assert(x + b =~= b);
    } else {
        assert((x + a)[0] == x[0]);
        assert((x + b)[0] == x[0]);
        assert((x + a).drop_first() =~= x.drop_first() + a);
        assert((x + b).drop_first() =~= x.drop_first() + b);
        lemma_lex_strip(x.drop_first(), a, b);
    }
}

/// A byte difference at position `i`, after `i` equal bytes, decides the
/// comparison of any two extensions.
proof fn lemma_lex_first_diff(x: Seq<u8>, y: Seq<u8>, r: Seq<u8>, s: Seq<u8>, i: int)
    requires
        0 <= i < x.len(),
        i < y.len(),
        forall|j: int| 0 <= j < i ==> x[j] == y[j],
        x[i] != y[i],
    ensures
        lex_cmp_bytes(x + r, y + s) == if x[i] < y[i] {
            core::cmp::Ordering::Less
        } else {
            core::cmp::Ordering::Greater
        },
    decreases i,
{
    assert((x + r)[0] == x[0]);
    assert((y + s)[0] == y[0]);
    if i == 0 {
    } else {
        assert((x + r).drop_first() =~= x.drop_first() + r);
        assert((y + s).drop_first() =~= y.drop_first() + s);
        assert(forall|j: int| 0 <= j < i - 1 ==> x.drop_first()[j] == y.drop_first()[j]);
        assert(x.drop_first()[i - 1] == x[i]);
        assert(y.drop_first()[i - 1] == y[i]);
        lemma_lex_first_diff(x.drop_first(), y.drop_first(), r, s, i - 1);
    }
}

/// Encodings of a smaller and a larger scalar differ in favour of the
/// smaller one before either ends, whatever follows them: the lead byte of a
/// shorter encoding is smaller than that of a longer one, and within one
/// width the encoding is monotonic byte for byte.
proof fn lemma_scalar_lt(a: u32, b: u32, r: Seq<u8>, s: Seq<u8>)
    requires
        is_scalar(a),
        is_scalar(b),
        a < b,
    ensures
        lex_cmp_bytes(encode_scalar(a) + r, encode_scalar(b) + s) == core::cmp::Ordering::Less,
{
    let x = encode_scalar(a);
    let y = encode_scalar(b);
    assert(leading_byte_width_1(a) <= 0x7F) by (bit_vector);
    assert(leading_byte_width_2(b) >= 0xC0) by (bit_vector);
    assert(leading_byte_width_2(a) <= 0xDF) by (bit_vector);
    assert(leading_byte_width_3(b) >= 0xE0) by (bit_vector);
    assert(leading_byte_width_3(a) <= 0xEF) by (bit_vector);
    assert(leading_byte_width_4(b) >= 0xF0) by (bit_vector);
    if has_width_1_encoding(a) && has_width_1_encoding(b) {
        assert(leading_byte_width_1(a) < leading_byte_width_1(b)) by (bit_vector)
            requires a < b, has_width_1_encoding(a), has_width_1_encoding(b),
        ;
        lemma_lex_first_diff(x, y, r, s, 0);
    } else if has_width_2_encoding(a) && has_width_2_encoding(b) {
        assert(leading_byte_width_2(a) <= leading_byte_width_2(b) && (leading_byte_width_2(a)
            == leading_byte_width_2(b) ==> last_continuation_byte(a) < last_continuation_byte(
            b,
        ))) by (bit_vector)
            requires a < b, has_width_2_encoding(a), has_width_2_encoding(b),
        ;
        if x[0] != y[0] {
            lemma_lex_first_diff(x, y, r, s, 0);
        } else {
            lemma_lex_first_diff(x, y, r, s, 1);
        }
    } else if has_width_3_encoding(a) && has_width_3_encoding(b) {
        assert(leading_byte_width_3(a) <= leading_byte_width_3(b) && (leading_byte_width_3(a)
            == leading_byte_width_3(b) ==> second_last_continuation_byte(a)
            <= second_last_continuation_byte(b)) && (leading_byte_width_3(a)
            == leading_byte_width_3(b) && second_last_continuation_byte(a)
            == second_last_continuation_byte(b) ==> last_continuation_byte(a)
            < last_continuation_byte(b))) by (bit_vector)
            requires a < b, has_width_3_encoding(a), has_width_3_encoding(b),
        ;
        if x[0] != y[0] {
            lemma_lex_first_diff(x, y, r, s, 0);
        } else if x[1] != y[1] {
            lemma_lex_first_diff(x, y, r, s, 1);
        } else {
            lemma_lex_first_diff(x, y, r, s, 2);
        }
    } else if has_width_4_encoding(a) && has_width_4_encoding(b) {
        assert(leading_byte_width_4(a) <= leading_byte_width_4(b) && (leading_byte_width_4(a)
            == leading_byte_width_4(b) ==> third_last_continuation_byte(a)
            <= third_last_continuation_byte(b)) && (leading_byte_width_4(a)
            == leading_byte_width_4(b) && third_last_continuation_byte(a)
            == third_last_continuation_byte(b) ==> second_last_continuation_byte(a)
            <= second_last_continuation_byte(b)) && (leading_byte_width_4(a)
            == leading_byte_width_4(b) && third_last_continuation_byte(a)
            == third_last_continuation_byte(b) && second_last_continuation_byte(a)
            == second_last_continuation_byte(b) ==> last_continuation_byte(a)
            < last_continuation_byte(b))) by (bit_vector)
            requires a < b, has_width_4_encoding(a), has_width_4_encoding(b),
        ;
        if x[0] != y[0] {
            lemma_lex_first_diff(x, y, r, s, 0);
        } else if x[1] != y[1] {
            lemma_lex_first_diff(x, y, r, s, 1);
        } else if x[2] != y[2] {
            lemma_lex_first_diff(x, y, r, s, 2);
        } else {
            lemma_lex_first_diff(x, y, r, s, 3);
        }
    } else {
        // Different widths: since `a < b`, `a`'s encoding is the shorter,
        // and its lead byte is strictly below `b`'s lead byte range.
        lemma_lex_first_diff(x, y, r, s, 0);
    }
}

/// Law: on UTF-8 encodings, bytewise lexicographic order is the
/// lexicographic order of the encoded character sequences — comparing the
/// stored bytes of two strings compares their text.
pub proof fn lemma_order_is_text_order(s1: Seq<char>, s2: Seq<char>)
    ensures
        lex_cmp_bytes(encode_utf8(s1), encode_utf8(s2)) == lex_cmp_chars(s1, s2),
    decreases s1.len(),
{
    if s1.len() == 0 && s2.len() == 0 {
    } else if s1.len() == 0 {
        crate::codec::lemma_encoded_len(s2);
    } else if s2.len() == 0 {
        crate::codec::lemma_encoded_len(s1);
    } else {
        let c1 = s1[0] as u32;
        let c2 = s2[0] as u32;
        char_is_scalar(s1[0]);
        char_is_scalar(s2[0]);
        crate::codec::lemma_encoded_len(s1);
        crate::codec::lemma_encoded_len(s2);
        assert(encode_utf8(s1) == encode_scalar(c1) + encode_utf8(s1.drop_first()));
        assert(encode_utf8(s2) == encode_scalar(c2) + encode_utf8(s2.drop_first()));
        if c1 == c2 {
            char_u32_cast(s1[0], c1);
            char_u32_cast(s2[0], c2);
            assert(s1[0] == s2[0]);
            lemma_lex_strip(
                encode_scalar(c1),
                encode_utf8(s1.drop_first()),
                encode_utf8(s2.drop_first()),
            );
            lemma_order_is_text_order(s1.drop_first(), s2.drop_first());
        } else if c1 < c2 {
            lemma_scalar_lt(c1, c2, encode_utf8(s1.drop_first()), encode_utf8(s2.drop_first()));
        } else {
            lemma_scalar_lt(c2, c1, encode_utf8(s2.drop_first()), encode_utf8(s1.drop_first()));
            lemma_lex_antisym(encode_utf8(s2), encode_utf8(s1));
        }
    }
}

/// Compare two byte vectors in bytewise lexicographic order.
pub(crate) fn cmp_bytes(x: &Vec<u8>, y: &Vec<u8>) -> (r: core::cmp::Ordering)
    ensures
        r == lex_cmp_bytes(x@, y@),
{
    let xn = x.len();
    let yn = y.len();
    let mut i: usize = 0;
    proof {
        assert(x@.skip(0) =~= x@);
        assert(y@.skip(0) =~= y@);
    }
    while i < xn && i < yn
        invariant
            xn == x@.len(),
            yn == y@.len(),
            i <= xn,
            i <= yn,
            lex_cmp_bytes(x@, y@) == lex_cmp_bytes(x@.skip(i as int), y@.skip(i as int)),
        decreases xn - i,
    {
        let a = x[i];
        let b = y[i];
        proof {
            assert(x@.skip(i as int)[0] == x@[i as int]);
            assert(y@.skip(i as int)[0] == y@[i as int]);
        }
        if a < b {
            return core::cmp::Ordering::Less;
        }
        if a > b {
            return core::cmp::Ordering::Greater;
        }
        proof {
            assert(x@.skip(i as int).drop_first() =~= x@.skip(i as int + 1));
            assert(y@.skip(i as int).drop_first() =~= y@.skip(i as int + 1));
        }
        i = i + 1;
    }
    if xn < yn {
        core::cmp::Ordering::Less
    } else if xn > yn {
        core::cmp::Ordering::Greater
    } else {
        core::cmp::Ordering::Equal
    }
}

} // verus!
