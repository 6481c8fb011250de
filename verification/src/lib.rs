use vstd::prelude::*;

pub mod bytes;
pub mod combinators;
pub mod integer;

verus! {

use crate::bytes::Bytes;
use crate::bytes::BytesPool;

/// A tagged two-way union, declared from the `either` crate so that codecs
/// can construct and inspect its variants in verified code. Nothing beyond
/// the enum's own shape is relied on.
#[verifier::external_type_specification]
#[verifier::reject_recursive_types(L)]
#[verifier::reject_recursive_types(R)]
pub struct ExEither<L, R>(either::Either<L, R>);

/// An append-only write sink for raw bytes. `written` is the sequence of
/// every byte appended so far.
pub trait Target {
    spec fn written(&self) -> Seq<u8>;

    fn extend_from_slice(&mut self, slice: &[u8])
        requires
            old(self).written().len() + slice@.len() <= usize::MAX,
        ensures
            final(self).written() == old(self).written() + slice@,
    ;
}

/// A counting sink: it records how many bytes were written without storing
/// them, so an encoded length can be computed without allocating.
#[derive(Clone, Copy)]
pub struct TargetCounter {
    bytes_written: usize,
    history: Ghost<Seq<u8>>,
}

impl TargetCounter {
    #[verifier::type_invariant]
    closed spec fn type_inv(self) -> bool {
        self.bytes_written == self.history@.len()
    }

    pub fn bytes_written(&self) -> (r: usize)
        ensures
            r == self.written().len(),
    {
        proof {
            use_type_invariant(self);
        }
        self.bytes_written
    }
}

impl Default for TargetCounter {
    fn default() -> (r: TargetCounter)
        ensures
            r.written() == Seq::<u8>::empty(),
    {
        TargetCounter { bytes_written: 0, history: Ghost(Seq::empty()) }
    }
}

impl Target for TargetCounter {
    closed spec fn written(&self) -> Seq<u8> {
        self.history@
    }

    fn extend_from_slice(&mut self, slice: &[u8]) {
        proof {
            use_type_invariant(&*self);
        }
        let count = self.bytes_written + slice.len();
        *self = TargetCounter { bytes_written: count, history: Ghost(self.history@ + slice@) };
    }
}

/// The write half of a codec: `encoding` is the exact byte sequence the
/// value serializes to, and `write_to_bytes_mut` appends it to any target.
/// `encodable` excludes values whose encoding is not representable, such as
/// a byte range longer than its length prefix can state.
pub trait WriteToBytesMut {
    spec fn encodable(&self) -> bool;

    spec fn encoding(&self) -> Seq<u8>;

    fn write_to_bytes_mut<T>(&self, target: &mut T) where T: Target
        requires
            self.encodable(),
            old(target).written().len() + self.encoding().len() <= usize::MAX,
        ensures
            final(target).written() == old(target).written() + self.encoding(),
    ;
}

impl<'a, U> WriteToBytesMut for &'a U where U: WriteToBytesMut {
    open spec fn encodable(&self) -> bool {
        (**self).encodable()
    }

    open spec fn encoding(&self) -> Seq<u8> {
        (**self).encoding()
    }

    fn write_to_bytes_mut<T>(&self, target: &mut T) where T: Target {
        (*self).write_to_bytes_mut(target)
    }
}

/// A monotonic read cursor over a byte slice. `slice_view` is the unread
/// remainder; `parent` is the shared allocation handle behind the cursor,
/// when there is one, from which zero-copy sub-ranges can be taken. The
/// unread remainder is always a suffix of the parent's visible bytes.
pub trait Source {
    spec fn wf(&self) -> bool;

    spec fn slice_view(&self) -> Seq<u8>;

    spec fn parent(&self) -> Option<Bytes>;

    proof fn lemma_parent_view(&self)
        requires
            self.wf(),
        ensures
            (match self.parent() {
                Some(p) => self.slice_view().len() <= p@.len() && self.slice_view() == p@.skip(
                    p@.len() - self.slice_view().len(),
                ),
                None => true,
            }),
    ;

    fn slice(&self) -> (r: &[u8])
        requires
            self.wf(),
        ensures
            r@ == self.slice_view(),
    ;

    fn parent_bytes(&self) -> (r: Option<&Bytes>)
        requires
            self.wf(),
        ensures
            (match r {
                Some(b) => self.parent() == Some(*b),
                None => self.parent() is None,
            }),
    ;

    fn advance(&mut self, bytes_count: usize)
        requires
            old(self).wf(),
            bytes_count <= old(self).slice_view().len(),
        ensures
            final(self).wf(),
            final(self).slice_view() == old(self).slice_view().skip(bytes_count as int),
            final(self).parent() == old(self).parent(),
    ;
}

/// A cursor over a borrowed slice with no parent allocation: it cannot hand
/// out zero-copy sub-range handles.
#[derive(Clone)]
pub struct SourceSlice<'a> {
    pub slice: &'a [u8],
}

impl<'a> From<&'a [u8]> for SourceSlice<'a> {
    fn from(slice: &'a [u8]) -> (r: SourceSlice<'a>) {
        SourceSlice { slice }
    }
}

impl<'a> vstd::std_specs::convert::FromSpecImpl<&'a [u8]> for SourceSlice<'a> {
    open spec fn obeys_from_spec() -> bool {
        true
    }

    open spec fn from_spec(slice: &'a [u8]) -> SourceSlice<'a> {
        SourceSlice { slice }
    }
}

impl<'a> Source for SourceSlice<'a> {
    open spec fn wf(&self) -> bool {
        true
    }

    open spec fn slice_view(&self) -> Seq<u8> {
        self.slice@
    }

    open spec fn parent(&self) -> Option<Bytes> {
        None
    }

    proof fn lemma_parent_view(&self) {
    }

    fn slice(&self) -> (r: &[u8]) {
        self.slice
    }

    fn parent_bytes(&self) -> (r: Option<&Bytes>) {
        None
    }

    fn advance(&mut self, bytes_count: usize) {
        let s: &'a [u8] = self.slice;
        self.slice = &s[bytes_count..s.len()];
    }
}

/// A cursor over the visible bytes of a referenced `Bytes` handle: zero-copy
/// sub-ranges are tied to that handle's allocation.
#[derive(Clone)]
pub struct SourceBytesRef<'a> {
    pub bytes: &'a Bytes,
    pub consumed: usize,
}

impl<'a> From<&'a Bytes> for SourceBytesRef<'a> {
    fn from(bytes: &'a Bytes) -> (r: SourceBytesRef<'a>) {
        SourceBytesRef { bytes, consumed: 0 }
    }
}

impl<'a> vstd::std_specs::convert::FromSpecImpl<&'a Bytes> for SourceBytesRef<'a> {
    open spec fn obeys_from_spec() -> bool {
        true
    }

    open spec fn from_spec(bytes: &'a Bytes) -> SourceBytesRef<'a> {
        SourceBytesRef { bytes, consumed: 0 }
    }
}

impl<'a> Source for SourceBytesRef<'a> {
    open spec fn wf(&self) -> bool {
        self.consumed <= self.bytes@.len()
    }

    open spec fn slice_view(&self) -> Seq<u8> {
        self.bytes@.skip(self.consumed as int)
    }

    open spec fn parent(&self) -> Option<Bytes> {
        Some(*self.bytes)
    }

    proof fn lemma_parent_view(&self) {
    }

    fn slice(&self) -> (r: &[u8]) {
        let s = self.bytes.as_slice();
        &s[self.consumed..s.len()]
    }

    fn parent_bytes(&self) -> (r: Option<&Bytes>) {
        Some(self.bytes)
    }

    fn advance(&mut self, bytes_count: usize) {
        let _total: usize = self.bytes.len();
        proof {
            assert(old(self).bytes@.skip(self.consumed + bytes_count) =~= old(
                self,
            ).slice_view().skip(bytes_count as int));
        }
        self.consumed = self.consumed + bytes_count;
    }
}

/// A cursor that owns its handle to the shared allocation, so its zero-copy
/// sub-ranges live independently of the caller.
#[derive(Clone)]
pub struct SourceBytesOwned {
    pub parent_bytes: Bytes,
    pub bytes: Bytes,
}

impl From<Bytes> for SourceBytesOwned {
    fn from(bytes: Bytes) -> (r: SourceBytesOwned) {
        SourceBytesOwned { parent_bytes: bytes.clone(), bytes }
    }
}

impl vstd::std_specs::convert::FromSpecImpl<Bytes> for SourceBytesOwned {
    open spec fn obeys_from_spec() -> bool {
        true
    }

    open spec fn from_spec(bytes: Bytes) -> SourceBytesOwned {
        SourceBytesOwned { parent_bytes: bytes, bytes }
    }
}

impl Source for SourceBytesOwned {
    open spec fn wf(&self) -> bool {
        self.bytes@.len() <= self.parent_bytes@.len() && self.bytes@ == self.parent_bytes@.skip(
            self.parent_bytes@.len() - self.bytes@.len(),
        )
    }

    open spec fn slice_view(&self) -> Seq<u8> {
        self.bytes@
    }

    open spec fn parent(&self) -> Option<Bytes> {
        Some(self.parent_bytes)
    }

    proof fn lemma_parent_view(&self) {
    }

    fn slice(&self) -> (r: &[u8]) {
        self.bytes.as_slice()
    }

    fn parent_bytes(&self) -> (r: Option<&Bytes>) {
        Some(&self.parent_bytes)
    }

    fn advance(&mut self, bytes_count: usize) {
        self.bytes.focus_subrange(bytes_count);
        proof {
            assert(self.bytes@ =~= self.parent_bytes@.skip(
                self.parent_bytes@.len() - self.bytes@.len(),
            ));
        }
    }
}

/// What a decode does to its input: either it succeeds after consuming
/// `consumed` bytes, or it fails with `error` after consuming `consumed`
/// bytes.
pub enum ReadOutcome<E> {
    Done { consumed: nat },
    Failed { error: E, consumed: nat },
}

/// The read half of a codec. `spec_read` is the decode function itself,
/// stated over the unread bytes and over whether the source has a parent
/// allocation; `read_from_source` implements it, and on success returns a
/// value whose encoding is exactly the bytes consumed.
pub trait ReadFromSource: WriteToBytesMut + Sized {
    type Error;

    spec fn spec_read(s: Seq<u8>, has_parent: bool) -> ReadOutcome<Self::Error>;

    /// Which errors report that the input holds fewer bytes than the
    /// encoding needs.
    spec fn insufficient_data(e: Self::Error) -> bool;

    /// A complete encoding, with anything after it, decodes to the value
    /// that was encoded, consuming exactly the encoding.
    proof fn lemma_read_encoding(&self, rest: Seq<u8>)
        requires
            self.encodable(),
        ensures
            Self::spec_read(self.encoding() + rest, true) == (ReadOutcome::<Self::Error>::Done {
                consumed: self.encoding().len(),
            }),
    ;

    /// A strict prefix of an encoding fails to decode, with an error that
    /// reports insufficient data.
    proof fn lemma_read_truncated(&self, cut: int)
        requires
            self.encodable(),
            0 <= cut < self.encoding().len(),
        ensures
            (match Self::spec_read(self.encoding().take(cut), true) {
                ReadOutcome::Failed { error, consumed } => Self::insufficient_data(error),
                ReadOutcome::Done { .. } => false,
            }),
    ;

    fn read_from_source<S>(source: &mut S) -> (r: Result<Self, Self::Error>) where S: Source
        requires
            old(source).wf(),
        ensures
            final(source).wf(),
            final(source).parent() == old(source).parent(),
            (match (r, Self::spec_read(old(source).slice_view(), old(source).parent() is Some)) {
                (Ok(v), ReadOutcome::Done { consumed }) => v.encodable() && consumed <= old(
                    source,
                ).slice_view().len() && v.encoding() == old(source).slice_view().take(
                    consumed as int,
                ) && final(source).slice_view() == old(source).slice_view().skip(consumed as int),
                (Err(e), ReadOutcome::Failed { error, consumed }) => e == error && consumed <= old(
                    source,
                ).slice_view().len() && final(source).slice_view() == old(
                    source,
                ).slice_view().skip(consumed as int),
                _ => false,
            }),
    ;
}

/// Round-trip law: a value's encoding, followed by any further bytes,
/// decodes successfully and consumes exactly the encoding. Together with
/// `read_from_source`'s contract, the decoded value re-encodes to those
/// same bytes.
pub proof fn lemma_round_trip<V>(v: V, rest: Seq<u8>) where V: ReadFromSource
    requires
        v.encodable(),
    ensures
        V::spec_read(v.encoding() + rest, true) == (ReadOutcome::<V::Error>::Done {
            consumed: v.encoding().len(),
        }),
{
    v.lemma_read_encoding(rest);
}

/// Truncation safety: cutting any encoding to a strictly shorter length
/// makes the decode fail, always with an error that reports insufficient
/// data.
pub proof fn lemma_truncation_safety<V>(v: V, cut: int) where V: ReadFromSource
    requires
        v.encodable(),
        0 <= cut < v.encoding().len(),
    ensures
        (match V::spec_read(v.encoding().take(cut), true) {
            ReadOutcome::Failed { error, consumed } => V::insufficient_data(error),
            ReadOutcome::Done { .. } => false,
        }),
{
    v.lemma_read_truncated(cut);
}

/// Encodes a value into a fresh buffer from the pool and freezes it: the
/// returned handle holds exactly the value's encoding.
pub fn write<T>(blocks_pool: &BytesPool, value: &T) -> (r: Bytes) where T: WriteToBytesMut
    requires
        value.encodable(),
        value.encoding().len() <= usize::MAX,
    ensures
        r@ == value.encoding(),
        r.backing() == value.encoding(),
        r.start() == 0,
{
    let mut bytes_mut = blocks_pool.lend();
    value.write_to_bytes_mut(&mut bytes_mut);
    bytes_mut.freeze()
}

} // verus!
