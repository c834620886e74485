//! The string core: the public mutation surface.
//!
//! A `String` owns one byte buffer and maintains the central contract of the
//! whole crate: whenever control returns to the caller after a public
//! operation completes, the stored bytes are a valid UTF-8 encoding. The
//! mathematical content of a string is its character sequence (`self@`); the
//! stored bytes are always exactly `encode_utf8(self@)`. Operations take
//! character ordinal indices and use the boundary translator to turn them
//! into byte offsets. Read access goes through `as_str`, which reinterprets
//! the bytes as text without mutating or copying them.

use vstd::prelude::*;
use vstd::slice::slice_to_vec;
use vstd::string::StringSliceAdditionalSpecFns;
use vstd::utf8::*;

use crate::buffer::ByteBuf;
use crate::codec::{
    decode_char_at, encode_char, lemma_encode_concat, lemma_encode_single, lemma_encode_take_skip,
    lemma_encoded_len, lemma_scan_step, scalar_len,
};
use crate::err::Utf8ValidationError;
use crate::order::{cmp_bytes, lemma_lex_eq, lemma_order_is_text_order, lex_cmp_bytes};
use crate::strategy::AllocStrategy;
use crate::translate::{byte_pos_of, byte_pos_spec, first_invalid_at, last_char_start, validate};

verus! {

/// A growable, contiguous byte buffer holding valid UTF-8 text, bound to an
/// allocation-strategy handle chosen at construction.
#[derive(Debug, Clone)]
pub struct String {
    buf: ByteBuf,
}

/// Relies on `str::from_utf8`: on bytes that are a valid UTF-8 encoding it
/// returns `Ok` of a string slice viewing exactly those bytes, so the
/// slice's characters are the decoding of the bytes.
#[verifier::external_body]
fn bytes_as_str(v: &[u8]) -> (r: &str)
    requires
        valid_utf8(v@),
    ensures
        r@ == decode_utf8(v@),
{
    core::str::from_utf8(v).unwrap()
}

impl View for String {
    type V = Seq<char>;

    /// The character sequence this string holds.
    closed spec fn view(&self) -> Seq<char> {
        decode_utf8(self.buf.bytes())
    }
}

impl String {
    /// The stored bytes.
    pub closed spec fn bytes(self) -> Seq<u8> {
        self.buf.bytes()
    }

    /// The committed capacity of the backing buffer, in bytes.
    pub closed spec fn capacity_spec(self) -> int {
        self.buf.capacity_spec()
    }

    /// The central invariant: the content fits the committed capacity and
    /// the stored bytes are a valid UTF-8 encoding.
    pub open spec fn wf(self) -> bool {
        &&& self.bytes().len() <= self.capacity_spec() <= usize::MAX
        &&& valid_utf8(self.bytes())
    }

    /// How content, bytes and encoding relate on a well-formed string: the
    /// bytes are exactly the UTF-8 encoding of the characters, and decoding
    /// the bytes yields the characters back.
    pub proof fn lemma_view_bytes(&self)
        requires
            self.wf(),
        ensures
            self@ == decode_utf8(self.bytes()),
            self.bytes() == encode_utf8(self@),
            self@.len() <= self.bytes().len() <= 4 * self@.len(),
    {
        decode_utf8_encode_utf8(self.bytes());
        lemma_encoded_len(self@);
    }

    /// An empty string bound to the given strategy; no storage is committed.
    pub fn new_in(alloc: AllocStrategy) -> (r: String)
        ensures
            r.wf(),
            r@ == Seq::<char>::empty(),
            r.bytes() == Seq::<u8>::empty(),
            r.capacity_spec() == 0,
    {
        String { buf: ByteBuf::new_in(alloc) }
    }

    /// An empty string with `cap` bytes of storage committed.
    pub fn with_capacity_in(cap: usize, alloc: AllocStrategy) -> (r: String)
        ensures
            r.wf(),
            r@ == Seq::<char>::empty(),
            r.bytes() == Seq::<u8>::empty(),
            r.capacity_spec() == cap,
    {
        String { buf: ByteBuf::with_capacity_in(cap, alloc) }
    }

    /// Copy the bytes of already-valid text; always succeeds.
    pub fn from_str_in(s: &str, alloc: AllocStrategy) -> (r: String)
        ensures
            r.wf(),
            r@ == s@,
            r.bytes() == s.spec_bytes(),
            r.capacity_spec() == r.bytes().len(),
    {
        let v = slice_to_vec(s.as_bytes());
        proof {
            encode_utf8_valid_utf8(s@);
            encode_utf8_decode_utf8(s@);
        }
        String { buf: ByteBuf::from_vec(v, alloc) }
    }

    /// Validate the given bytes as UTF-8 and take ownership of them on
    /// success; on failure, report the byte offset of the first invalid
    /// sequence. Succeeds exactly when the bytes are a valid encoding.
    pub fn from_utf8_in(vec: Vec<u8>) -> (r: Result<String, Utf8ValidationError>)
        ensures
            r is Ok <==> valid_utf8(vec@),
            r matches Ok(s) ==> s.wf() && s.bytes() == vec@ && s@ == decode_utf8(vec@)
                && s.capacity_spec() == vec@.len(),
            r matches Err(e) ==> first_invalid_at(vec@, e.valid_up_to as int),
    {
        match validate(&vec) {
            None => Ok(String { buf: ByteBuf::from_vec(vec, AllocStrategy) }),
            Some(o) => Err(Utf8ValidationError { valid_up_to: o }),
        }
    }

    /// Take ownership of the given bytes without scanning them. The caller
    /// must establish that they are a valid UTF-8 encoding; the precondition
    /// makes that attestation explicit instead of re-checking at run time.
    pub fn from_utf8_unchecked_in(vec: Vec<u8>) -> (r: String)
        requires
            valid_utf8(vec@),
        ensures
            r.wf(),
            r.bytes() == vec@,
            r@ == decode_utf8(vec@),
            r.capacity_spec() == vec@.len(),
    {
        String { buf: ByteBuf::from_vec(vec, AllocStrategy) }
    }

    /// Append the bytes of valid text at the end. Grows the committed
    /// capacity amortized; the byte length grows by exactly the appended
    /// text's byte length.
    pub fn push_str(&mut self, s: &str)
        requires
            old(self).wf(),
            old(self).bytes().len() + s.spec_bytes().len() <= usize::MAX,
        ensures
            final(self).wf(),
            final(self)@ == old(self)@ + s@,
            final(self).bytes() == old(self).bytes() + s.spec_bytes(),
            final(self).bytes().len() == old(self).bytes().len() + s.spec_bytes().len(),
            final(self).capacity_spec() >= old(self).capacity_spec(),
    {
        proof {
            self.lemma_view_bytes();
        }
        self.buf.append(s.as_bytes());
        proof {
            lemma_encode_concat(old(self)@, s@);
            encode_utf8_valid_utf8(old(self)@ + s@);
            encode_utf8_decode_utf8(old(self)@ + s@);
        }
    }

    /// Encode one character into 1 to 4 bytes and append it.
    pub fn push(&mut self, ch: char)
        requires
            old(self).wf(),
            old(self).bytes().len() + 4 <= usize::MAX,
        ensures
            final(self).wf(),
            final(self)@ == old(self)@.push(ch),
            final(self).bytes() == old(self).bytes() + encode_scalar(ch as u32),
            final(self).capacity_spec() >= old(self).capacity_spec(),
    {
        proof {
            self.lemma_view_bytes();
        }
        let e = encode_char(ch);
        self.buf.append(e.as_slice());
        proof {
            lemma_encode_concat(old(self)@, seq![ch]);
            lemma_encode_single(ch);
            encode_utf8_valid_utf8(old(self)@ + seq![ch]);
            encode_utf8_decode_utf8(old(self)@ + seq![ch]);
            assert(old(self)@ + seq![ch] =~= old(self)@.push(ch));
        }
    }

    /// Decode, remove and return the last character; `None` when empty.
    pub fn pop(&mut self) -> (r: Option<char>)
        requires
            old(self).wf(),
        ensures
            final(self).wf(),
            r is Some <==> old(self)@.len() > 0,
            old(self)@.len() == 0 ==> *final(self) == *old(self),
            old(self)@.len() > 0 ==> ({
                &&& r == Some(old(self)@.last())
                &&& final(self)@ == old(self)@.drop_last()
                &&& final(self).capacity_spec() == old(self).capacity_spec()
            }),
    {
        proof {
            self.lemma_view_bytes();
        }
        if self.buf.len() == 0 {
            proof {
                assert(old(self)@.len() == 0);
            }
            return None;
        }
        let ghost chars = self@;
        let ghost last = chars.len() as int - 1;
        let start = last_char_start(self.buf.as_vec());
        proof {
            lemma_scan_step(chars, last);
            crate::codec::lemma_suffix_valid(chars, last);
        }
        let (c, _w) = decode_char_at(self.buf.as_vec(), start);
        proof {
            char_u32_cast(chars[last], c as u32);
            char_u32_cast(c, c as u32);
        }
        self.buf.truncate_to(start);
        proof {
            lemma_encode_take_skip(chars, last);
            assert(encode_utf8(chars).subrange(0, start as int) =~= encode_utf8(
                chars.take(last),
            ));
            encode_utf8_valid_utf8(chars.take(last));
            encode_utf8_decode_utf8(chars.take(last));
            assert(chars.take(last) =~= chars.drop_last());
        }
        Some(c)
    }

    /// Insert a character so that it becomes character number `idx`;
    /// `idx` equal to the character count appends at the end. An `idx`
    /// beyond the character count violates the insertion bound
    /// (insertion index should be at most the character count) and is
    /// excluded by the precondition.
    pub fn insert(&mut self, idx: usize, ch: char)
        requires
            old(self).wf(),
            idx <= old(self)@.len(),
            old(self).bytes().len() + 4 <= usize::MAX,
        ensures
            final(self).wf(),
            final(self)@ == old(self)@.insert(idx as int, ch),
            final(self).bytes().len() == old(self).bytes().len() + scalar_len(ch),
            final(self).capacity_spec() >= old(self).capacity_spec(),
    {
        proof {
            self.lemma_view_bytes();
        }
        let ghost chars = self@;
        let pos = byte_pos_of(self.buf.as_vec(), idx);
        let e = encode_char(ch);
        self.buf.insert_at(pos, &e);
        proof {
            lemma_encode_take_skip(chars, idx as int);
            assert(encode_utf8(chars).subrange(0, pos as int) =~= encode_utf8(
                chars.take(idx as int),
            ));
            assert(encode_utf8(chars).subrange(pos as int, encode_utf8(chars).len() as int)
                =~= encode_utf8(chars.skip(idx as int)));
            let mid = chars.take(idx as int) + seq![ch];
            lemma_encode_concat(chars.take(idx as int), seq![ch]);
            lemma_encode_single(ch);
            lemma_encode_concat(mid, chars.skip(idx as int));
            assert(mid + chars.skip(idx as int) =~= chars.insert(idx as int, ch));
            assert(self.bytes() =~= encode_utf8(chars.insert(idx as int, ch)));
            encode_utf8_valid_utf8(chars.insert(idx as int, ch));
            encode_utf8_decode_utf8(chars.insert(idx as int, ch));
            lemma_encoded_len(chars.insert(idx as int, ch));
            lemma_encoded_len(chars);
            lemma_encoded_len_insert(chars, idx as int, ch);
        }
    }

    /// Decode, remove and return character number `idx`. An `idx` at or
    /// beyond the character count violates the removal bound (removal index
    /// should be less than the character count) and is excluded by the
    /// precondition.
    pub fn remove(&mut self, idx: usize) -> (r: char)
        requires
            old(self).wf(),
            idx < old(self)@.len(),
        ensures
            final(self).wf(),
            r == old(self)@[idx as int],
            final(self)@ == old(self)@.remove(idx as int),
            final(self).capacity_spec() == old(self).capacity_spec(),
    {
        proof {
            self.lemma_view_bytes();
        }
        let ghost chars = self@;
        let pos = byte_pos_of(self.buf.as_vec(), idx);
        proof {
            lemma_scan_step(chars, idx as int);
            crate::codec::lemma_suffix_valid(chars, idx as int);
        }
        let (c, w) = decode_char_at(self.buf.as_vec(), pos);
        proof {
            char_u32_cast(chars[idx as int], c as u32);
            char_u32_cast(c, c as u32);
        }
        self.buf.drain_range(pos, pos + w);
        proof {
            lemma_encode_take_skip(chars, idx as int);
            let b = encode_utf8(chars);
            assert(b.subrange(0, pos as int) =~= encode_utf8(chars.take(idx as int)));
            assert(b.subrange(pos as int, b.len() as int) =~= encode_utf8(
                chars.skip(idx as int),
            ));
            assert(chars.skip(idx as int) =~= seq![chars[idx as int]] + chars.skip(idx as int + 1));
            lemma_encode_concat(seq![chars[idx as int]], chars.skip(idx as int + 1));
            lemma_encode_single(chars[idx as int]);
            assert(b.subrange(pos as int + w as int, b.len() as int) =~= encode_utf8(
                chars.skip(idx as int + 1),
            ));
            lemma_encode_concat(chars.take(idx as int), chars.skip(idx as int + 1));
            assert(chars.take(idx as int) + chars.skip(idx as int + 1) =~= chars.remove(
                idx as int,
            ));
            assert(self.bytes() =~= encode_utf8(chars.remove(idx as int)));
            encode_utf8_valid_utf8(chars.remove(idx as int));
            encode_utf8_decode_utf8(chars.remove(idx as int));
        }
        c
    }

    /// Move the characters from ordinal `at` on into a new string bound to
    /// a clone of this string's strategy; this string keeps the prefix and
    /// its capacity. `at` equal to the character count yields an empty
    /// suffix.
    pub fn split_off(&mut self, at: usize) -> (r: String)
        requires
            old(self).wf(),
            at <= old(self)@.len(),
        ensures
            final(self).wf(),
            r.wf(),
            final(self)@ == old(self)@.take(at as int),
            r@ == old(self)@.skip(at as int),
            final(self).capacity_spec() == old(self).capacity_spec(),
            r.capacity_spec() == r.bytes().len(),
    {
        proof {
            self.lemma_view_bytes();
        }
        let ghost chars = self@;
        let pos = byte_pos_of(self.buf.as_vec(), at);
        let suffix = self.buf.split_at(pos);
        proof {
            lemma_encode_take_skip(chars, at as int);
            let b = encode_utf8(chars);
            assert(b.subrange(0, pos as int) =~= encode_utf8(chars.take(at as int)));
            assert(b.subrange(pos as int, b.len() as int) =~= encode_utf8(chars.skip(at as int)));
            encode_utf8_valid_utf8(chars.take(at as int));
            encode_utf8_decode_utf8(chars.take(at as int));
            encode_utf8_valid_utf8(chars.skip(at as int));
            encode_utf8_decode_utf8(chars.skip(at as int));
        }
        String { buf: suffix }
    }

    /// Drop every character from ordinal `new_len` on; the capacity is
    /// unchanged. A `new_len` beyond the character count violates the
    /// truncation bound (truncate index should be at most the character
    /// count) and is excluded by the precondition.
    pub fn truncate(&mut self, new_len: usize)
        requires
            old(self).wf(),
            new_len <= old(self)@.len(),
        ensures
            final(self).wf(),
            final(self)@ == old(self)@.take(new_len as int),
            final(self).capacity_spec() == old(self).capacity_spec(),
    {
        proof {
            self.lemma_view_bytes();
        }
        let ghost chars = self@;
        let pos = byte_pos_of(self.buf.as_vec(), new_len);
        self.buf.truncate_to(pos);
        proof {
            lemma_encode_take_skip(chars, new_len as int);
            assert(encode_utf8(chars).subrange(0, pos as int) =~= encode_utf8(
                chars.take(new_len as int),
            ));
            encode_utf8_valid_utf8(chars.take(new_len as int));
            encode_utf8_decode_utf8(chars.take(new_len as int));
        }
    }

    /// Keep exactly the characters on which the predicate returns true, in
    /// their original order, rebuilding the content in one left-to-right
    /// pass; the committed capacity is unchanged. The mask `kept` in the
    /// contract records a verdict the predicate could have returned for
    /// each original character, in order; a deterministic predicate pins
    /// the result down to the filtered sequence (`lemma_mask_filter_pointwise`).
    pub fn retain<F: Fn(char) -> bool>(&mut self, f: F)
        requires
            old(self).wf(),
            forall|c: char| #[trigger] f.requires((c,)),
        ensures
            final(self).wf(),
            final(self).capacity_spec() == old(self).capacity_spec(),
            exists|kept: Seq<bool>|
                {
                    &&& final(self)@ == #[trigger] mask_filter(old(self)@, kept)
                    &&& kept.len() == old(self)@.len()
                    &&& (forall|j: int|
                        0 <= j < kept.len() ==> f.ensures((old(self)@[j],), #[trigger] kept[j]))
                },
    {
        proof {
            self.lemma_view_bytes();
        }
        let ghost chars = self@;
        let mut out: Vec<u8> = Vec::new();
        let ghost mut kept: Seq<bool> = Seq::empty();
        let n = self.buf.len();
        let mut pos: usize = 0;
        let mut count: usize = 0;
        while pos < n
            invariant
                forall|c: char| #[trigger] f.requires((c,)),
                self.wf(),
                chars == old(self)@,
                chars == self@,
                encode_utf8(chars) == self.bytes(),
                self.bytes() == old(self).bytes(),
                self.capacity_spec() == old(self).capacity_spec(),
                n == self.bytes().len(),
                chars.len() <= n,
                count <= chars.len(),
                pos == byte_pos_spec(chars, count as int),
                pos <= n,
                kept.len() == count,
                forall|j: int| 0 <= j < count ==> f.ensures((chars[j],), #[trigger] kept[j]),
                out@ == encode_utf8(mask_filter(chars.take(count as int), kept)),
                out@.len() <= pos,
            decreases n - pos,
        {
            proof {
                if count == chars.len() {
                    assert(chars.take(count as int) =~= chars);
                }
                lemma_scan_step(chars, count as int);
                crate::codec::lemma_suffix_valid(chars, count as int);
            }
            let (c, w) = decode_char_at(self.buf.as_vec(), pos);
            proof {
                char_u32_cast(chars[count as int], c as u32);
                char_u32_cast(c, c as u32);
            }
            let keep = f(c);
            let ghost out_before = out@;
            if keep {
                let mut k: usize = 0;
                while k < w
                    invariant
                        k <= w,
                        pos + w <= self.bytes().len(),
                        self.bytes().len() <= usize::MAX,
                        out@ == out_before + self.bytes().subrange(
                            pos as int,
                            pos as int + k as int,
                        ),
                    decreases w - k,
                {
                    let v = self.buf.as_vec();
                    let b = v[pos + k];
                    out.push(b);
                    proof {
                        assert(out@ =~= out_before + self.bytes().subrange(
                            pos as int,
                            pos as int + k as int + 1,
                        ));
                    }
                    k += 1;
                }
            }
            proof {
                let i = count as int;
                let b = encode_utf8(chars);
                assert(b.subrange(pos as int, b.len() as int) == encode_utf8(chars.skip(i)));
                assert(chars.skip(i) =~= seq![chars[i]] + chars.skip(i + 1));
                lemma_encode_concat(seq![chars[i]], chars.skip(i + 1));
                lemma_encode_single(chars[i]);
                assert(b.subrange(pos as int, pos as int + w as int) =~= encode_scalar(
                    chars[i] as u32,
                ));
                lemma_mask_filter_push(chars.take(i), kept, chars[i], keep);
                assert(chars.take(i + 1) =~= chars.take(i).push(chars[i]));
                let prev = mask_filter(chars.take(i), kept);
                let kept2 = kept.push(keep);
                assert(mask_filter(chars.take(i + 1), kept2) == if keep {
                    prev.push(chars[i])
                } else {
                    prev
                });
                if keep {
                    lemma_encode_concat(prev, seq![chars[i]]);
                    assert(prev + seq![chars[i]] =~= prev.push(chars[i]));
                    assert(out@ == encode_utf8(prev.push(chars[i])));
                }
                kept = kept2;
                assert(out@ == encode_utf8(mask_filter(chars.take(i + 1), kept)));
            }
            pos = pos + w;
            count = count + 1;
        }
        proof {
            crate::translate::lemma_take_len_full(chars, count as int);
            assert(chars.take(count as int) =~= chars);
            encode_utf8_valid_utf8(mask_filter(chars, kept));
            encode_utf8_decode_utf8(mask_filter(chars, kept));
        }
        self.buf.set_content(out);
        proof {
            assert(self@ == mask_filter(old(self)@, kept));
        }
    }

    /// Remove all characters; the capacity is unchanged.
    pub fn clear(&mut self)
        requires
            old(self).wf(),
        ensures
            final(self).wf(),
            final(self)@ == Seq::<char>::empty(),
            final(self).capacity_spec() == old(self).capacity_spec(),
    {
        self.buf.clear();
    }

    /// Guarantee capacity for at least `additional` more bytes; the
    /// capacity never decreases and may over-allocate.
    pub fn reserve(&mut self, additional: usize)
        requires
            old(self).wf(),
            old(self).bytes().len() + additional <= usize::MAX,
        ensures
            final(self).wf(),
            final(self)@ == old(self)@,
            final(self).bytes() == old(self).bytes(),
            final(self).capacity_spec() >= old(self).capacity_spec(),
            final(self).capacity_spec() >= old(self).bytes().len() + additional,
    {
        self.buf.reserve(additional);
    }

    /// Guarantee capacity for at least `additional` more bytes with no
    /// extra slack: when the buffer must grow, the new capacity is exactly
    /// the content length plus `additional`.
    pub fn reserve_exact(&mut self, additional: usize)
        requires
            old(self).wf(),
            old(self).bytes().len() + additional <= usize::MAX,
        ensures
            final(self).wf(),
            final(self)@ == old(self)@,
            final(self).bytes() == old(self).bytes(),
            final(self).capacity_spec() >= old(self).capacity_spec(),
            final(self).capacity_spec() >= old(self).bytes().len() + additional,
            final(self).capacity_spec() == if old(self).bytes().len() + additional > old(
                self,
            ).capacity_spec() {
                old(self).bytes().len() + additional
            } else {
                old(self).capacity_spec()
            },
    {
        self.buf.reserve_exact(additional);
    }

    /// Reduce the committed capacity to the content length; the capacity
    /// never drops below the content length.
    pub fn shrink_to_fit(&mut self)
        requires
            old(self).wf(),
        ensures
            final(self).wf(),
            final(self)@ == old(self)@,
            final(self).bytes() == old(self).bytes(),
            final(self).capacity_spec() == final(self).bytes().len(),
    {
        self.buf.shrink_to_fit();
    }

    /// The content length, in bytes.
    pub fn len(&self) -> (r: usize)
        ensures
            r == self.bytes().len(),
    {
        self.buf.len()
    }

    /// The committed capacity, in bytes.
    pub fn capacity(&self) -> (r: usize)
        ensures
            r == self.capacity_spec(),
    {
        self.buf.capacity()
    }

    /// The text view: the stored bytes reinterpreted as read-only text,
    /// without copying or re-validation. Safe exactly because of the
    /// invariant that the bytes are always a valid encoding.
    pub fn as_str(&self) -> (r: &str)
        requires
            self.wf(),
        ensures
            r@ == self@,
            r.spec_bytes() == self.bytes(),
    {
        proof {
            self.lemma_view_bytes();
        }
        bytes_as_str(self.buf.as_slice())
    }

    /// The stored bytes, read-only.
    pub fn as_bytes(&self) -> (r: &[u8])
        ensures
            r@ == self.bytes(),
    {
        self.buf.as_slice()
    }

    /// Consume the string, handing out the raw byte storage.
    pub fn into_bytes(self) -> (r: Vec<u8>)
        ensures
            r@ == self.bytes(),
    {
        self.buf.into_vec()
    }

    /// Copy the content into a new string bound to a default strategy
    /// handle.
    pub fn to_string_in(&self) -> (r: String)
        requires
            self.wf(),
        ensures
            r.wf(),
            r@ == self@,
            r.bytes() == self.bytes(),
            r.capacity_spec() == r.bytes().len(),
    {
        let v = slice_to_vec(self.buf.as_slice());
        String { buf: ByteBuf::from_vec(v, AllocStrategy) }
    }
}

impl PartialEq for String {
    /// Equality is defined purely over content: two strings are equal when
    /// they hold the same bytes (equivalently, by the codec round trip, the
    /// same text), whatever strategy or capacity backs either operand.
    fn eq(&self, other: &String) -> (r: bool) {
        let c = cmp_bytes(self.buf.as_vec(), other.buf.as_vec());
        proof {
            lemma_lex_eq(self.bytes(), other.bytes());
        }
        match c {
            core::cmp::Ordering::Equal => true,
            _ => false,
        }
    }
}

impl Eq for String {

}

impl vstd::std_specs::cmp::PartialEqSpecImpl for String {
    open spec fn obeys_eq_spec() -> bool {
        true
    }

    open spec fn eq_spec(&self, other: &String) -> bool {
        self.bytes() == other.bytes()
    }
}

impl PartialOrd for String {
    /// Ordering is defined purely over content, by bytewise lexicographic
    /// comparison of the stored encodings.
    fn partial_cmp(&self, other: &String) -> (r: Option<core::cmp::Ordering>) {
        Some(cmp_bytes(self.buf.as_vec(), other.buf.as_vec()))
    }
}

impl vstd::std_specs::cmp::PartialOrdSpecImpl for String {
    open spec fn obeys_partial_cmp_spec() -> bool {
        true
    }

    open spec fn partial_cmp_spec(&self, other: &String) -> Option<core::cmp::Ordering> {
        Some(lex_cmp_bytes(self.bytes(), other.bytes()))
    }
}

/// Law: on well-formed strings, equality of the stored bytes is equality of
/// the text, so the executable equality decides text equality regardless of
/// strategy or capacity.
pub proof fn lemma_eq_is_text_eq(a: &String, b: &String)
    requires
        a.wf(),
        b.wf(),
    ensures
        (a.bytes() == b.bytes()) <==> (a@ == b@),
{
    a.lemma_view_bytes();
    b.lemma_view_bytes();
}

/// Law: on well-formed strings, the bytewise comparison the executable
/// ordering performs is the codepoint-lexicographic comparison of the text,
/// so ordering too is defined purely over decoded content.
pub proof fn lemma_cmp_is_text_cmp(a: &String, b: &String)
    requires
        a.wf(),
        b.wf(),
    ensures
        lex_cmp_bytes(a.bytes(), b.bytes()) == crate::order::lex_cmp_chars(a@, b@),
{
    a.lemma_view_bytes();
    b.lemma_view_bytes();
    lemma_order_is_text_order(a@, b@);
}

/// The characters of `s` whose entry in the mask `kept` is true, in their
/// original order.
pub open spec fn mask_filter(s: Seq<char>, kept: Seq<bool>) -> Seq<char>
    recommends
        kept.len() == s.len(),
    decreases s.len(),
{
    if s.len() == 0 {
        Seq::<char>::empty()
    } else {
        let rest = mask_filter(s.drop_last(), kept.drop_last());
        if kept[s.len() - 1] {
            rest.push(s.last())
        } else {
            rest
        }
    }
}

/// Extending the sequence and the mask by one entry extends the masked
/// selection accordingly.
proof fn lemma_mask_filter_push(s: Seq<char>, kept: Seq<bool>, c: char, b: bool)
    requires
        kept.len() == s.len(),
    ensures
        mask_filter(s.push(c), kept.push(b)) == if b {
            mask_filter(s, kept).push(c)
        } else {
            mask_filter(s, kept)
        },
{
    assert(s.push(c).drop_last() =~= s);
    assert(kept.push(b).drop_last() =~= kept);
    assert(s.push(c).last() == c);
    assert(kept.push(b)[s.len() as int] == b);
}

/// Law: selecting by a mask that is the pointwise application of a predicate
/// keeps exactly the characters satisfying the predicate, in their original
/// order.
pub proof fn lemma_mask_filter_pointwise(s: Seq<char>, kept: Seq<bool>, p: spec_fn(char) -> bool)
    requires
        kept.len() == s.len(),
        forall|i: int| 0 <= i < s.len() ==> kept[i] == p(s[i]),
    ensures
        mask_filter(s, kept) == s.filter(p),
    decreases s.len(),
{
    reveal(Seq::filter);
    if s.len() > 0 {
        lemma_mask_filter_pointwise(s.drop_last(), kept.drop_last(), p);
    }
}

/// Law: round trip through the codec — decoding the encoding of any
/// character sequence yields the sequence back, and the encoding is always
/// a valid UTF-8 byte sequence. In particular a string built from text holds
/// exactly that text.
pub proof fn lemma_text_round_trip(s: Seq<char>)
    ensures
        valid_utf8(encode_utf8(s)),
        decode_utf8(encode_utf8(s)) == s,
{
    encode_utf8_valid_utf8(s);
    encode_utf8_decode_utf8(s);
}

/// Law: the byte length of a text is the sum of its characters' encoded
/// lengths, and lies between the character count and four times the
/// character count.
pub proof fn lemma_byte_length(s: Seq<char>)
    ensures
        encode_utf8(s).len() == crate::codec::encoded_len(s),
        s.len() <= encode_utf8(s).len() <= 4 * s.len(),
{
    lemma_encoded_len(s);
}

/// Law: inserting a character at ordinal `i` and then removing ordinal `i`
/// reproduces the original content exactly.
pub proof fn lemma_insert_remove(s: Seq<char>, i: int, c: char)
    requires
        0 <= i <= s.len(),
    ensures
        s.insert(i, c).remove(i) == s,
{
    assert(s.insert(i, c).remove(i) =~= s);
}

/// Law: splitting at any ordinal `k` and concatenating the two parts
/// reproduces the original content exactly.
pub proof fn lemma_split_concat(s: Seq<char>, k: int)
    requires
        0 <= k <= s.len(),
    ensures
        s.take(k) + s.skip(k) == s,
{
    assert(s.take(k) + s.skip(k) =~= s);
}

/// Inserting a character grows the total encoded length by exactly that
/// character's encoded length.
proof fn lemma_encoded_len_insert(chars: Seq<char>, idx: int, ch: char)
    requires
        0 <= idx <= chars.len(),
    ensures
        encode_utf8(chars.insert(idx, ch)).len() == encode_utf8(chars).len() + scalar_len(ch),
{
    lemma_encode_take_skip(chars, idx);
    let mid = chars.take(idx) + seq![ch];
    lemma_encode_concat(chars.take(idx), seq![ch]);
    lemma_encode_single(ch);
    lemma_encode_concat(mid, chars.skip(idx));
    assert(mid + chars.skip(idx) =~= chars.insert(idx, ch));
}

} // verus!
