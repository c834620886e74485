//! The growable byte buffer backing a string.
//!
//! A `ByteBuf` owns a contiguous byte region bound to one allocation-strategy
//! handle and manages capacity growth and shrink. The content is the byte
//! sequence `bytes()`; the capacity is the buffer's committed storage size in
//! bytes, always at least the content length. Appending grows the capacity
//! amortized (at least doubling), `reserve` grows it to at least
//! `len + additional`, `reserve_exact` to exactly that when it must grow, and
//! `shrink_to_fit` reduces it to the content length. An allocation request
//! that the underlying service cannot satisfy terminates the process; no
//! partially updated buffer is ever observable.

use vstd::prelude::*;

use crate::strategy::AllocStrategy;

verus! {

/// A growable, contiguous byte region bound to one allocation strategy.
#[derive(Debug, Clone)]
pub struct ByteBuf {
    data: Vec<u8>,
    cap: usize,
    alloc: AllocStrategy,
}

/// Relies on `Vec::reserve_exact`: it only adjusts capacity and leaves the
/// contents of the vector unchanged.
#[verifier::external_body]
fn vec_reserve_exact(v: &mut Vec<u8>, additional: usize)
    ensures
        final(v)@ == old(v)@,
{
    v.reserve_exact(additional);
}

/// Relies on `Vec::shrink_to_fit`: it only releases excess capacity and
/// leaves the contents of the vector unchanged.
#[verifier::external_body]
fn vec_shrink_to_fit(v: &mut Vec<u8>)
    ensures
        final(v)@ == old(v)@,
{
    v.shrink_to_fit();
}

impl ByteBuf {
    /// The bytes currently stored, in order.
    pub closed spec fn bytes(self) -> Seq<u8> {
        self.data@
    }

    /// The committed storage size, in bytes.
    pub closed spec fn capacity_spec(self) -> int {
        self.cap as int
    }

    /// The buffer never stores more bytes than its capacity admits, and the
    /// capacity is a machine size.
    pub open spec fn wf(self) -> bool {
        self.bytes().len() <= self.capacity_spec() <= usize::MAX
    }

    /// An empty buffer bound to the given strategy, with no storage committed.
    pub fn new_in(alloc: AllocStrategy) -> (r: ByteBuf)
        ensures
            r.wf(),
            r.bytes() == Seq::<u8>::empty(),
            r.capacity_spec() == 0,
    {
        ByteBuf { data: Vec::new(), cap: 0, alloc }
    }

    /// An empty buffer with exactly `cap` bytes of storage committed.
    pub fn with_capacity_in(cap: usize, alloc: AllocStrategy) -> (r: ByteBuf)
        ensures
            r.wf(),
            r.bytes() == Seq::<u8>::empty(),
            r.capacity_spec() == cap,
    {
        let mut data: Vec<u8> = Vec::new();
        data.reserve(cap);
        ByteBuf { data, cap, alloc }
    }

    /// A buffer owning the given bytes, bound to the given strategy, with
    /// capacity equal to the content length.
    pub fn from_vec(data: Vec<u8>, alloc: AllocStrategy) -> (r: ByteBuf)
        ensures
            r.wf(),
            r.bytes() == data@,
            r.capacity_spec() == data@.len(),
    {
        let cap = data.len();
        ByteBuf { data, cap, alloc }
    }

    /// Consume the buffer, handing out the owned bytes.
    pub fn into_vec(self) -> (r: Vec<u8>)
        ensures
            r@ == self.bytes(),
    {
        self.data
    }

    /// The content length in bytes.
    pub fn len(&self) -> (r: usize)
        ensures
            r == self.bytes().len(),
    {
        self.data.len()
    }

    /// The committed capacity in bytes.
    pub fn capacity(&self) -> (r: usize)
        ensures
            r == self.capacity_spec(),
    {
        self.cap
    }

    /// Read-only access to the stored bytes.
    pub fn as_vec(&self) -> (r: &Vec<u8>)
        ensures
            r@ == self.bytes(),
    {
        &self.data
    }

    /// Read-only access to the stored bytes as a slice.
    pub fn as_slice(&self) -> (r: &[u8])
        ensures
            r@ == self.bytes(),
    {
        self.data.as_slice()
    }

    /// Grow the committed capacity so that at least `needed` bytes fit,
    /// over-allocating (at least doubling) to bound the cost of repeated
    /// appends.
    fn grow_to(&mut self, needed: usize)
        requires
            old(self).wf(),
        ensures
            final(self).wf(),
            final(self).bytes() == old(self).bytes(),
            final(self).capacity_spec() >= old(self).capacity_spec(),
            final(self).capacity_spec() >= needed,
    {
        if needed > self.cap {
            let doubled = if self.cap <= usize::MAX / 2 {
                self.cap * 2
            } else {
                usize::MAX
            };
            let new_cap = if doubled > needed {
                doubled
            } else {
                needed
            };
            let additional = new_cap - self.data.len();
            self.data.reserve(additional);
            self.cap = new_cap;
        }
    }

    /// Append the given bytes at the end, growing capacity amortized.
    pub fn append(&mut self, s: &[u8])
        requires
            old(self).wf(),
            old(self).bytes().len() + s@.len() <= usize::MAX,
        ensures
            final(self).wf(),
            final(self).bytes() == old(self).bytes() + s@,
            final(self).capacity_spec() >= old(self).capacity_spec(),
    {
        let needed = self.data.len() + s.len();
        self.grow_to(needed);
        self.data.extend_from_slice(s);
    }

    /// Guarantee capacity of at least `len + additional` bytes; the growth
    /// never shrinks the capacity and may over-allocate.
    pub fn reserve(&mut self, additional: usize)
        requires
            old(self).wf(),
            old(self).bytes().len() + additional <= usize::MAX,
        ensures
            final(self).wf(),
            final(self).bytes() == old(self).bytes(),
            final(self).capacity_spec() >= old(self).capacity_spec(),
            final(self).capacity_spec() >= old(self).bytes().len() + additional,
    {
        let needed = self.data.len() + additional;
        if needed > self.cap {
            let spare = needed - self.data.len();
            self.data.reserve(spare);
            self.cap = needed;
        }
    }

    /// Guarantee capacity of at least `len + additional` bytes with no extra
    /// slack: when the buffer must grow, the new capacity is exactly
    /// `len + additional`.
    pub fn reserve_exact(&mut self, additional: usize)
        requires
            old(self).wf(),
            old(self).bytes().len() + additional <= usize::MAX,
        ensures
            final(self).wf(),
            final(self).bytes() == old(self).bytes(),
            final(self).capacity_spec() >= old(self).capacity_spec(),
            final(self).capacity_spec() == if old(self).bytes().len() + additional
                > old(self).capacity_spec() {
                old(self).bytes().len() + additional
            } else {
                old(self).capacity_spec()
            },
    {
        let needed = self.data.len() + additional;
        if needed > self.cap {
            let spare = needed - self.data.len();
            vec_reserve_exact(&mut self.data, spare);
            self.cap = needed;
        }
    }

    /// Reduce the committed capacity to the content length.
    pub fn shrink_to_fit(&mut self)
        requires
            old(self).wf(),
        ensures
            final(self).wf(),
            final(self).bytes() == old(self).bytes(),
            final(self).capacity_spec() == final(self).bytes().len(),
    {
        vec_shrink_to_fit(&mut self.data);
        self.cap = self.data.len();
    }

    /// Drop every byte from offset `byte_len` on; the capacity is unchanged.
    pub fn truncate_to(&mut self, byte_len: usize)
        requires
            old(self).wf(),
            byte_len <= old(self).bytes().len(),
        ensures
            final(self).wf(),
            final(self).bytes() == old(self).bytes().subrange(0, byte_len as int),
            final(self).capacity_spec() == old(self).capacity_spec(),
    {
        self.data.truncate(byte_len);
    }

    /// Remove all bytes; the capacity is unchanged.
    pub fn clear(&mut self)
        requires
            old(self).wf(),
        ensures
            final(self).wf(),
            final(self).bytes() == Seq::<u8>::empty(),
            final(self).capacity_spec() == old(self).capacity_spec(),
    {
        self.data.clear();
    }

    /// Splice the given bytes in at offset `at`, shifting later bytes right.
    pub fn insert_at(&mut self, at: usize, s: &Vec<u8>)
        requires
            old(self).wf(),
            at <= old(self).bytes().len(),
            old(self).bytes().len() + s@.len() <= usize::MAX,
        ensures
            final(self).wf(),
            final(self).bytes() == old(self).bytes().subrange(0, at as int) + s@
                + old(self).bytes().subrange(at as int, old(self).bytes().len() as int),
            final(self).capacity_spec() >= old(self).capacity_spec(),
    {
        let needed = self.data.len() + s.len();
        self.grow_to(needed);
        let mut j: usize = 0;
        let slen = s.len();
        while j < slen
            invariant
                j <= slen,
                slen == s@.len(),
                at + slen <= usize::MAX,
                at <= old(self).bytes().len(),
                self.data@ == old(self).bytes().subrange(0, at as int) + s@.subrange(0, j as int)
                    + old(self).bytes().subrange(at as int, old(self).bytes().len() as int),
                self.cap >= old(self).capacity_spec(),
                old(self).bytes().len() + slen <= self.cap,
            decreases slen - j,
        {
            self.data.insert(at + j, s[j]);
            proof {
                assert(self.data@ =~= old(self).bytes().subrange(0, at as int) + s@.subrange(
                    0,
                    j as int + 1,
                ) + old(self).bytes().subrange(at as int, old(self).bytes().len() as int));
            }
            j += 1;
        }
        proof {
            assert(s@.subrange(0, slen as int) =~= s@);
        }
    }

    /// Remove the bytes in `[from, to)`, shifting later bytes left; the
    /// capacity is unchanged.
    pub fn drain_range(&mut self, from: usize, to: usize)
        requires
            old(self).wf(),
            from <= to <= old(self).bytes().len(),
        ensures
            final(self).wf(),
            final(self).bytes() == old(self).bytes().subrange(0, from as int)
                + old(self).bytes().subrange(to as int, old(self).bytes().len() as int),
            final(self).capacity_spec() == old(self).capacity_spec(),
    {
        let mut j: usize = 0;
        let count = to - from;
        while j < count
            invariant
                j <= count,
                count == to - from,
                from <= to <= old(self).bytes().len(),
                self.data@ == old(self).bytes().subrange(0, from as int) + old(self).bytes()
                    .subrange(from as int + j as int, old(self).bytes().len() as int),
                self.cap == old(self).capacity_spec(),
                self.data@.len() <= self.cap,
            decreases count - j,
        {
            self.data.remove(from);
            proof {
                assert(self.data@ =~= old(self).bytes().subrange(0, from as int) + old(self).bytes()
                    .subrange(from as int + j as int + 1, old(self).bytes().len() as int));
            }
            j += 1;
        }
        proof {
            assert(old(self).bytes().subrange(from as int + count as int,
                old(self).bytes().len() as int) =~= old(self).bytes().subrange(
                to as int,
                old(self).bytes().len() as int,
            ));
        }
    }

    /// Move the bytes from offset `at` on into a new buffer bound to a clone
    /// of this buffer's strategy; this buffer keeps the prefix and its
    /// capacity.
    pub fn split_at(&mut self, at: usize) -> (r: ByteBuf)
        requires
            old(self).wf(),
            at <= old(self).bytes().len(),
        ensures
            final(self).wf(),
            r.wf(),
            final(self).bytes() == old(self).bytes().subrange(0, at as int),
            r.bytes() == old(self).bytes().subrange(at as int, old(self).bytes().len() as int),
            final(self).capacity_spec() == old(self).capacity_spec(),
            r.capacity_spec() == r.bytes().len(),
    {
        let suffix = self.data.split_off(at);
        let cap = suffix.len();
        ByteBuf { data: suffix, cap, alloc: self.alloc.clone() }
    }

    /// Replace the content with the given bytes, keeping the larger of the
    /// current capacity and the new content length.
    pub fn set_content(&mut self, v: Vec<u8>)
        requires
            old(self).wf(),
        ensures
            final(self).wf(),
            final(self).bytes() == v@,
            final(self).capacity_spec() == if v@.len() > old(self).capacity_spec() {
                v@.len() as int
            } else {
                old(self).capacity_spec()
            },
    {
        if v.len() > self.cap {
            self.cap = v.len();
        }
        self.data = v;
    }
}

} // verus!
