use vstd::prelude::*;

verus! {

use std::sync::Arc;
use crate::ReadFromSource;
use crate::ReadOutcome;
use crate::Source;
use crate::Target;
use crate::WriteToBytesMut;
use crate::integer::ReadIntegerError;
use crate::integer::be_bytes_of;
use crate::integer::be_val_of;
use crate::integer::lemma_be_bytes_of_len;
use crate::integer::lemma_be_val_of_be_bytes_of;

/// Relies on Arc::clone: it returns a new handle to the same allocation,
/// which therefore holds the same value.
#[verifier::external_body]
fn arc_clone(a: &Arc<Vec<u8>>) -> (r: Arc<Vec<u8>>)
    ensures
        r == *a,
{
    Arc::clone(a)
}

/// Relies on Arc::ptr_eq: it returns true only when both handles point to
/// one allocation, which then holds one value.
#[verifier::external_body]
fn arc_ptr_eq(a: &Arc<Vec<u8>>, b: &Arc<Vec<u8>>) -> (r: bool)
    ensures
        r ==> *a == *b,
{
    Arc::ptr_eq(a, b)
}

/// An immutable, shareable view over a contiguous region of a shared
/// allocation. Sub-range handles share the backing allocation instead of
/// copying payload bytes, and keep it alive as long as any handle exists.
#[derive(Debug)]
pub struct Bytes {
    alloc: Arc<Vec<u8>>,
    start: usize,
    len: usize,
}

impl View for Bytes {
    type V = Seq<u8>;

    closed spec fn view(&self) -> Seq<u8> {
        self.alloc@.subrange(self.start as int, self.start + self.len)
    }
}

impl Bytes {
    #[verifier::type_invariant]
    closed spec fn type_inv(self) -> bool {
        self.start + self.len <= self.alloc@.len()
    }

    /// The full content of the backing allocation this handle shares.
    pub closed spec fn backing(&self) -> Seq<u8> {
        self.alloc@
    }

    /// The offset at which this handle's visible bytes begin in the backing
    /// allocation.
    pub closed spec fn start(&self) -> int {
        self.start as int
    }

    pub fn len(&self) -> (r: usize)
        ensures
            r == self@.len(),
    {
        proof {
            use_type_invariant(self);
        }
        self.len
    }

    pub fn as_slice(&self) -> (r: &[u8])
        ensures
            r@ == self@,
    {
        proof {
            use_type_invariant(self);
        }
        let v: &Vec<u8> = &*self.alloc;
        let _total: usize = v.len();
        let end: usize = self.start + self.len;
        &v.as_slice()[self.start..end]
    }

    /// A zero-copy handle over `self@[from..to]`: the result shares the
    /// backing allocation, narrowed to the requested range.
    pub fn subrange(&self, from: usize, to: usize) -> (r: Bytes)
        requires
            from <= to <= self@.len(),
        ensures
            r@ == self@.subrange(from as int, to as int),
            r.backing() == self.backing(),
            r.start() == self.start() + from,
    {
        proof {
            use_type_invariant(self);
        }
        let _total: usize = {
            let v: &Vec<u8> = &*self.alloc;
            v.len()
        };
        let r = Bytes { alloc: arc_clone(&self.alloc), start: self.start + from, len: to - from };
        proof {
            assert(r@ =~= self@.subrange(from as int, to as int));
        }
        r
    }

    /// Narrows this handle in place, discarding its first `bytes_count`
    /// visible bytes. The backing allocation is unchanged.
    pub fn focus_subrange(&mut self, bytes_count: usize)
        requires
            bytes_count <= old(self)@.len(),
        ensures
            final(self)@ == old(self)@.skip(bytes_count as int),
            final(self).backing() == old(self).backing(),
            final(self).start() == old(self).start() + bytes_count,
    {
        proof {
            use_type_invariant(&*self);
        }
        let _total: usize = {
            let v: &Vec<u8> = &*self.alloc;
            v.len()
        };
        let alloc = arc_clone(&self.alloc);
        let start = self.start + bytes_count;
        let len = self.len - bytes_count;
        *self = Bytes { alloc, start, len };
        proof {
            assert(self@ =~= old(self)@.skip(bytes_count as int));
        }
    }

    /// The offset of this handle's first visible byte in its backing
    /// allocation.
    pub fn offset_in_backing(&self) -> (r: usize)
        ensures
            r == self.start(),
    {
        self.start
    }

    /// Whether the two handles share one backing allocation. A positive
    /// answer implies that they see the same backing content.
    pub fn shares_allocation_with(&self, other: &Bytes) -> (r: bool)
        ensures
            r ==> self.backing() == other.backing(),
    {
        arc_ptr_eq(&self.alloc, &other.alloc)
    }
}

impl Clone for Bytes {
    fn clone(&self) -> (r: Bytes)
        ensures
            r == *self,
    {
        proof {
            use_type_invariant(self);
        }
        Bytes { alloc: arc_clone(&self.alloc), start: self.start, len: self.len }
    }
}

impl PartialEq for Bytes {
    /// Content equality of the visible bytes; the backing allocations may
    /// differ.
    fn eq(&self, other: &Bytes) -> (r: bool) {
        let a = self.as_slice();
        let b = other.as_slice();
        if a.len() != b.len() {
            proof {
                assert(a@.len() != b@.len());
            }
            return false;
        }
        let n = a.len();
        let mut i: usize = 0;
        while i < n
            invariant
                a@ == self@,
                b@ == other@,
                n == a@.len() == b@.len(),
                i <= n,
                forall|j: int| 0 <= j < i ==> a@[j] == b@[j],
            decreases n - i,
        {
            if a[i] != b[i] {
                proof {
                    assert(a@[i as int] != b@[i as int]);
                }
                return false;
            }
            i += 1;
        }
        proof {
            assert(a@ =~= b@);
        }
        true
    }
}

impl Eq for Bytes {

}

impl vstd::std_specs::cmp::PartialEqSpecImpl for Bytes {
    open spec fn obeys_eq_spec() -> bool {
        true
    }

    open spec fn eq_spec(&self, other: &Bytes) -> bool {
        self@ == other@
    }
}

/// The error of a byte-range decode.
#[derive(Debug)]
pub enum ReadBytesError {
    /// The 4-byte length prefix itself could not be read.
    BytesCount(ReadIntegerError),
    /// The declared length does not fit the platform's size type.
    BytesCountConvert(std::num::TryFromIntError),
    /// The source has no parent allocation to take a zero-copy range from.
    NoBytesAvailable,
    /// Fewer bytes remain after the prefix than the declared length.
    NotEnoughBytes { required: usize, provided: usize },
}

impl WriteToBytesMut for Bytes {
    open spec fn encodable(&self) -> bool {
        self@.len() <= u32::MAX
    }

    open spec fn encoding(&self) -> Seq<u8> {
        be_bytes_of(self@.len(), 4) + self@
    }

    fn write_to_bytes_mut<T>(&self, target: &mut T) where T: Target {
        proof {
            lemma_be_bytes_of_len(self@.len(), 4);
        }
        let bytes_len: u32 = self.len() as u32;
        bytes_len.write_to_bytes_mut(target);
        target.extend_from_slice(self.as_slice());
        proof {
            assert(target.written() =~= old(target).written() + self.encoding());
        }
    }
}

impl Bytes {
    /// Decodes a 4-byte length prefix and hands out the following payload as
    /// a zero-copy sub-range of the source's parent allocation: the result
    /// shares that allocation, narrowed to the payload, and no payload byte
    /// is copied.
    pub fn read_zero_copy<S>(source: &mut S) -> (r: Result<Bytes, ReadBytesError>) where S: Source
        requires
            old(source).wf(),
        ensures
            final(source).wf(),
            final(source).parent() == old(source).parent(),
            (match (r, Bytes::spec_read(old(source).slice_view(), old(source).parent() is Some)) {
                (Ok(b), ReadOutcome::Done { consumed }) => {
                    &&& b.encodable()
                    &&& consumed <= old(source).slice_view().len()
                    &&& b.encoding() == old(source).slice_view().take(consumed as int)
                    &&& b@ == old(source).slice_view().subrange(4, consumed as int)
                    &&& final(source).slice_view() == old(source).slice_view().skip(
                        consumed as int,
                    )
                    &&& (old(source).parent() matches Some(p) ==> b.backing() == p.backing()
                        && b.start() == p.start() + (p@.len() - old(source).slice_view().len())
                        + 4)
                },
                (Err(e), ReadOutcome::Failed { error, consumed }) => e == error && consumed <= old(
                    source,
                ).slice_view().len() && final(source).slice_view() == old(source).slice_view().skip(
                    consumed as int,
                ),
                _ => false,
            }),
    {
        let count32 = match u32::read_from_source(source) {
            Ok(c) => c,
            Err(e) => {
                return Err(ReadBytesError::BytesCount(e));
            },
        };
        proof {
            crate::integer::lemma_pow256_unfold_values();
            let prefix = old(source).slice_view().take(4);
            lemma_be_val_of_be_bytes_of(count32 as nat, 4);
            assert(be_val_of(prefix) == count32 as nat);
        }
        let count = count32 as usize;
        let remaining = source.slice().len();
        if remaining < count {
            return Err(ReadBytesError::NotEnoughBytes { required: count, provided: remaining });
        }
        let sub = match source.parent_bytes() {
            None => {
                return Err(ReadBytesError::NoBytesAvailable);
            },
            Some(parent) => {
                proof {
                    source.lemma_parent_view();
                }
                let parent_len = parent.len();
                let off = parent_len - remaining;
                let sub = parent.subrange(off, off + count);
                proof {
                    assert(sub@ =~= source.slice_view().take(count as int));
                }
                sub
            },
        };
        source.advance(count);
        proof {
            let s0 = old(source).slice_view();
            let consumed = 4 + count;
            assert(sub.encoding() =~= s0.take(consumed as int));
            assert(sub@ =~= s0.subrange(4, consumed as int));
            assert(source.slice_view() =~= s0.skip(consumed as int));
        }
        Ok(sub)
    }
}

impl ReadFromSource for Bytes {
    type Error = ReadBytesError;

    open spec fn spec_read(s: Seq<u8>, has_parent: bool) -> ReadOutcome<ReadBytesError> {
        if s.len() < 4 {
            ReadOutcome::Failed {
                error: ReadBytesError::BytesCount(
                    ReadIntegerError::InvalidBytesCount { provided: s.len() as usize, required: 4 },
                ),
                consumed: 0,
            }
        } else {
            let count = be_val_of(s.take(4));
            if s.len() - 4 < count {
                ReadOutcome::Failed {
                    error: ReadBytesError::NotEnoughBytes {
                        required: count as usize,
                        provided: (s.len() - 4) as usize,
                    },
                    consumed: 4,
                }
            } else if !has_parent {
                ReadOutcome::Failed { error: ReadBytesError::NoBytesAvailable, consumed: 4 }
            } else {
                ReadOutcome::Done { consumed: 4 + count }
            }
        }
    }

    open spec fn insufficient_data(e: ReadBytesError) -> bool {
        match e {
            ReadBytesError::BytesCount(_) => true,
            ReadBytesError::NotEnoughBytes { .. } => true,
            _ => false,
        }
    }

    proof fn lemma_read_encoding(&self, rest: Seq<u8>) {
        crate::integer::lemma_pow256_unfold_values();
        let n = self@.len();
        lemma_be_bytes_of_len(n, 4);
        let s = self.encoding() + rest;
        assert(s.take(4) =~= be_bytes_of(n, 4));
        lemma_be_val_of_be_bytes_of(n, 4);
        assert(s.len() - 4 >= n);
    }

    proof fn lemma_read_truncated(&self, cut: int) {
        crate::integer::lemma_pow256_unfold_values();
        let n = self@.len();
        lemma_be_bytes_of_len(n, 4);
        let t = self.encoding().take(cut);
        if cut >= 4 {
            assert(t.take(4) =~= be_bytes_of(n, 4));
            lemma_be_val_of_be_bytes_of(n, 4);
            assert(t.len() - 4 < n);
        }
    }

    fn read_from_source<S>(source: &mut S) -> (r: Result<Self, ReadBytesError>) where S: Source {
        Bytes::read_zero_copy(source)
    }
}

/// Borrowed-source limitation: a source without a parent allocation cannot
/// hand out zero-copy byte ranges. Even when the length prefix is intact
/// and every payload byte is present, the decode fails with the capability
/// error instead of silently copying.
pub proof fn lemma_borrowed_source_limitation(s: Seq<u8>)
    requires
        s.len() >= 4,
        be_val_of(s.take(4)) <= s.len() - 4,
    ensures
        Bytes::spec_read(s, false) == (ReadOutcome::<ReadBytesError>::Failed {
            error: ReadBytesError::NoBytesAvailable,
            consumed: 4,
        }),
{
}

/// A growable, exclusively-owned, append-only write buffer. It is turned
/// into an immutable `Bytes` handle exactly once, by `freeze`.
#[derive(Debug)]
pub struct BytesMut {
    data: Vec<u8>,
}

impl View for BytesMut {
    type V = Seq<u8>;

    closed spec fn view(&self) -> Seq<u8> {
        self.data@
    }
}

impl BytesMut {
    /// The one-way conversion into an immutable, shareable handle over the
    /// written bytes.
    pub fn freeze(self) -> (r: Bytes)
        ensures
            r@ == self@,
            r.backing() == self@,
            r.start() == 0,
    {
        let len = self.data.len();
        let r = Bytes { alloc: Arc::new(self.data), start: 0, len };
        proof {
            assert(r@ =~= r.backing());
        }
        r
    }
}

impl Target for BytesMut {
    open spec fn written(&self) -> Seq<u8> {
        self@
    }

    fn extend_from_slice(&mut self, slice: &[u8]) {
        self.data.extend_from_slice(slice);
    }
}

/// Hands out fresh write buffers. The recycling strategy of a pooled
/// allocator is not modeled: only the buffers' observable content is.
pub struct BytesPool {
}

impl BytesPool {
    pub fn new() -> (r: BytesPool) {
        BytesPool {  }
    }

    pub fn lend(&self) -> (r: BytesMut)
        ensures
            r@ == Seq::<u8>::empty(),
    {
        BytesMut { data: Vec::new() }
    }
}

} // verus!
