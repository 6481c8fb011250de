use vstd::prelude::*;

verus! {

use either::Either;
use crate::ReadFromSource;
use crate::ReadOutcome;
use crate::Source;
use crate::Target;
use crate::WriteToBytesMut;
use crate::integer::ReadIntegerError;
use crate::integer::lemma_be_bytes_of_single;

/// A unit value has no encoding, so its decode cannot fail: no function
/// ever produces this error.
#[derive(Debug)]
pub enum ReadUnitError {
    Never,
}

impl WriteToBytesMut for () {
    open spec fn encodable(&self) -> bool {
        true
    }

    open spec fn encoding(&self) -> Seq<u8> {
        Seq::empty()
    }

    fn write_to_bytes_mut<T>(&self, target: &mut T) where T: Target {
        proof {
            assert(target.written() =~= old(target).written() + self.encoding());
        }
    }
}

impl ReadFromSource for () {
    type Error = ReadUnitError;

    open spec fn spec_read(s: Seq<u8>, has_parent: bool) -> ReadOutcome<ReadUnitError> {
        ReadOutcome::Done { consumed: 0 }
    }

    open spec fn insufficient_data(e: ReadUnitError) -> bool {
        false
    }

    proof fn lemma_read_encoding(&self, rest: Seq<u8>) {
    }

    proof fn lemma_read_truncated(&self, cut: int) {
    }

    fn read_from_source<S>(source: &mut S) -> (r: Result<Self, ReadUnitError>) where S: Source {
        proof {
            let s0 = old(source).slice_view();
            assert(().encoding() =~= s0.take(0));
            assert(source.slice_view() =~= s0.skip(0));
        }
        Ok(())
    }
}

/// The wire tag of the left variant of a tagged union, and of an absent
/// optional value.
pub const TAG_LEFT: u8 = 1;

/// The wire tag of the right variant of a tagged union, and of a present
/// optional value.
pub const TAG_RIGHT: u8 = 2;

/// The error of a tagged-union decode, keeping the failing branch apart.
#[derive(Debug)]
pub enum ReadEitherError<L, R> where L: ReadFromSource, R: ReadFromSource {
    /// The tag byte itself could not be read.
    Tag(ReadIntegerError),
    /// The tag byte held neither variant's tag.
    InvalidTag(u8),
    /// The left variant's payload failed to decode.
    Left(L::Error),
    /// The right variant's payload failed to decode.
    Right(R::Error),
}

/// How a tagged-union decode treats its input: the tag byte picks the
/// branch, any other tag value fails, and the branch's own decode does the
/// rest.
pub open spec fn either_read_outcome<L, R>(s: Seq<u8>, has_parent: bool) -> ReadOutcome<
    ReadEitherError<L, R>,
> where L: ReadFromSource, R: ReadFromSource {
    if s.len() < 1 {
        ReadOutcome::Failed {
            error: ReadEitherError::Tag(
                ReadIntegerError::InvalidBytesCount { provided: s.len() as usize, required: 1 },
            ),
            consumed: 0,
        }
    } else if s[0] == TAG_LEFT {
        match L::spec_read(s.skip(1), has_parent) {
            ReadOutcome::Done { consumed } => ReadOutcome::Done { consumed: consumed + 1 },
            ReadOutcome::Failed { error, consumed } => ReadOutcome::Failed {
                error: ReadEitherError::Left(error),
                consumed: consumed + 1,
            },
        }
    } else if s[0] == TAG_RIGHT {
        match R::spec_read(s.skip(1), has_parent) {
            ReadOutcome::Done { consumed } => ReadOutcome::Done { consumed: consumed + 1 },
            ReadOutcome::Failed { error, consumed } => ReadOutcome::Failed {
                error: ReadEitherError::Right(error),
                consumed: consumed + 1,
            },
        }
    } else {
        ReadOutcome::Failed { error: ReadEitherError::InvalidTag(s[0]), consumed: 1 }
    }
}

/// Which tagged-union errors report insufficient input.
pub open spec fn either_insufficient_data<L, R>(e: ReadEitherError<L, R>) -> bool where
    L: ReadFromSource,
    R: ReadFromSource,
 {
    match e {
        ReadEitherError::Tag(_) => true,
        ReadEitherError::InvalidTag(_) => false,
        ReadEitherError::Left(left) => L::insufficient_data(left),
        ReadEitherError::Right(right) => R::insufficient_data(right),
    }
}

impl<L, R> WriteToBytesMut for Either<L, R> where L: WriteToBytesMut, R: WriteToBytesMut {
    open spec fn encodable(&self) -> bool {
        match self {
            Either::Left(left) => left.encodable(),
            Either::Right(right) => right.encodable(),
        }
    }

    open spec fn encoding(&self) -> Seq<u8> {
        match self {
            Either::Left(left) => seq![TAG_LEFT] + left.encoding(),
            Either::Right(right) => seq![TAG_RIGHT] + right.encoding(),
        }
    }

    fn write_to_bytes_mut<T>(&self, target: &mut T) where T: Target {
        proof {
            lemma_be_bytes_of_single(TAG_LEFT as nat);
            lemma_be_bytes_of_single(TAG_RIGHT as nat);
        }
        match self {
            Either::Left(left) => {
                TAG_LEFT.write_to_bytes_mut(target);
                left.write_to_bytes_mut(target);
            },
            Either::Right(right) => {
                TAG_RIGHT.write_to_bytes_mut(target);
                right.write_to_bytes_mut(target);
            },
        }
        proof {
            assert(target.written() =~= old(target).written() + self.encoding());
        }
    }
}

impl<L, R> ReadFromSource for Either<L, R> where L: ReadFromSource, R: ReadFromSource {
    type Error = ReadEitherError<L, R>;

    open spec fn spec_read(s: Seq<u8>, has_parent: bool) -> ReadOutcome<ReadEitherError<L, R>> {
        either_read_outcome::<L, R>(s, has_parent)
    }

    open spec fn insufficient_data(e: ReadEitherError<L, R>) -> bool {
        either_insufficient_data::<L, R>(e)
    }

    proof fn lemma_read_encoding(&self, rest: Seq<u8>) {
        let s = self.encoding() + rest;
        match self {
            Either::Left(left) => {
                assert(s[0] == TAG_LEFT);
                assert(s.skip(1) =~= left.encoding() + rest);
                left.lemma_read_encoding(rest);
            },
            Either::Right(right) => {
                assert(s[0] == TAG_RIGHT);
                assert(s.skip(1) =~= right.encoding() + rest);
                right.lemma_read_encoding(rest);
            },
        }
    }

    proof fn lemma_read_truncated(&self, cut: int) {
        let t = self.encoding().take(cut);
        if cut > 0 {
            match self {
                Either::Left(left) => {
                    assert(t[0] == TAG_LEFT);
                    assert(t.skip(1) =~= left.encoding().take(cut - 1));
                    left.lemma_read_truncated(cut - 1);
                },
                Either::Right(right) => {
                    assert(t[0] == TAG_RIGHT);
                    assert(t.skip(1) =~= right.encoding().take(cut - 1));
                    right.lemma_read_truncated(cut - 1);
                },
            }
        }
    }

    fn read_from_source<S>(source: &mut S) -> (r: Result<Self, ReadEitherError<L, R>>) where
        S: Source,
    {
        let tag = match u8::read_from_source(source) {
            Ok(tag) => tag,
            Err(e) => {
                return Err(ReadEitherError::Tag(e));
            },
        };
        proof {
            lemma_be_bytes_of_single(tag as nat);
            let s = old(source).slice_view();
            assert(s.len() >= 1);
            assert(tag.encoding() == s.take(1));
            assert(s.take(1) == seq![tag]);
            assert(s.take(1)[0] == s[0]);
            assert(s[0] == tag);
        }
        let ghost s0 = old(source).slice_view();
        if tag == TAG_LEFT {
            match L::read_from_source(source) {
                Ok(left) => {
                    proof {
                        let n = left.encoding().len() as int;
                        assert(seq![TAG_LEFT] + left.encoding() =~= s0.take(1 + n));
                        assert(source.slice_view() =~= s0.skip(1 + n));
                    }
                    Ok(Either::Left(left))
                },
                Err(e) => {
                    proof {
                        let ghost outcome = L::spec_read(
                            s0.skip(1),
                            old(source).parent() is Some,
                        );
                        if let ReadOutcome::Failed { error, consumed } = outcome {
                            assert(source.slice_view() =~= s0.skip(1 + consumed as int));
                        }
                    }
                    Err(ReadEitherError::Left(e))
                },
            }
        } else if tag == TAG_RIGHT {
            match R::read_from_source(source) {
                Ok(right) => {
                    proof {
                        let n = right.encoding().len() as int;
                        assert(seq![TAG_RIGHT] + right.encoding() =~= s0.take(1 + n));
                        assert(source.slice_view() =~= s0.skip(1 + n));
                    }
                    Ok(Either::Right(right))
                },
                Err(e) => {
                    proof {
                        let ghost outcome = R::spec_read(
                            s0.skip(1),
                            old(source).parent() is Some,
                        );
                        if let ReadOutcome::Failed { error, consumed } = outcome {
                            assert(source.slice_view() =~= s0.skip(1 + consumed as int));
                        }
                    }
                    Err(ReadEitherError::Right(e))
                },
            }
        } else {
            Err(ReadEitherError::InvalidTag(tag))
        }
    }
}

/// Tag robustness: a discriminant byte other than the defined variant tags
/// makes a tagged-union decode fail with exactly that invalid tag, after
/// consuming only the tag byte.
pub proof fn lemma_tag_robustness<L, R>(s: Seq<u8>, has_parent: bool) where
    L: ReadFromSource,
    R: ReadFromSource,

    requires
        s.len() >= 1,
        s[0] != TAG_LEFT,
        s[0] != TAG_RIGHT,
    ensures
        <Either<L, R> as ReadFromSource>::spec_read(s, has_parent) == (ReadOutcome::<
            ReadEitherError<L, R>,
        >::Failed { error: ReadEitherError::InvalidTag(s[0]), consumed: 1 }),
{
}

impl<U> WriteToBytesMut for Option<U> where U: WriteToBytesMut {
    open spec fn encodable(&self) -> bool {
        match self {
            None => true,
            Some(value) => value.encodable(),
        }
    }

    open spec fn encoding(&self) -> Seq<u8> {
        match self {
            None => seq![TAG_LEFT],
            Some(value) => seq![TAG_RIGHT] + value.encoding(),
        }
    }

    fn write_to_bytes_mut<T>(&self, target: &mut T) where T: Target {
        proof {
            lemma_be_bytes_of_single(TAG_LEFT as nat);
            lemma_be_bytes_of_single(TAG_RIGHT as nat);
        }
        match self {
            None => {
                TAG_LEFT.write_to_bytes_mut(target);
            },
            Some(value) => {
                TAG_RIGHT.write_to_bytes_mut(target);
                value.write_to_bytes_mut(target);
            },
        }
        proof {
            assert(target.written() =~= old(target).written() + self.encoding());
        }
    }
}

impl<U> ReadFromSource for Option<U> where U: ReadFromSource {
    type Error = ReadEitherError<(), U>;

    open spec fn spec_read(s: Seq<u8>, has_parent: bool) -> ReadOutcome<ReadEitherError<(), U>> {
        either_read_outcome::<(), U>(s, has_parent)
    }

    open spec fn insufficient_data(e: ReadEitherError<(), U>) -> bool {
        either_insufficient_data::<(), U>(e)
    }

    proof fn lemma_read_encoding(&self, rest: Seq<u8>) {
        match self {
            None => {
                let e = Either::<(), U>::Left(());
                assert(e.encoding() =~= self.encoding());
                e.lemma_read_encoding(rest);
            },
            Some(value) => {
                let e = Either::<(), U>::Right(*value);
                assert(e.encoding() == self.encoding());
                e.lemma_read_encoding(rest);
            },
        }
    }

    proof fn lemma_read_truncated(&self, cut: int) {
        match self {
            None => {
                let e = Either::<(), U>::Left(());
                assert(e.encoding() =~= self.encoding());
                e.lemma_read_truncated(cut);
            },
            Some(value) => {
                let e = Either::<(), U>::Right(*value);
                assert(e.encoding() == self.encoding());
                e.lemma_read_truncated(cut);
            },
        }
    }

    fn read_from_source<S>(source: &mut S) -> (r: Result<Self, ReadEitherError<(), U>>) where
        S: Source,
    {
        match Either::<(), U>::read_from_source(source) {
            Ok(either) => {
                let option = match either {
                    Either::Left(()) => None,
                    Either::Right(value) => Some(value),
                };
                proof {
                    assert(option.encoding() =~= either.encoding());
                }
                Ok(option)
            },
            Err(e) => Err(e),
        }
    }
}

impl<U, E> WriteToBytesMut for Result<U, E> where U: WriteToBytesMut, E: WriteToBytesMut {
    open spec fn encodable(&self) -> bool {
        match self {
            Err(error) => error.encodable(),
            Ok(value) => value.encodable(),
        }
    }

    open spec fn encoding(&self) -> Seq<u8> {
        match self {
            Err(error) => seq![TAG_LEFT] + error.encoding(),
            Ok(value) => seq![TAG_RIGHT] + value.encoding(),
        }
    }

    fn write_to_bytes_mut<T>(&self, target: &mut T) where T: Target {
        proof {
            lemma_be_bytes_of_single(TAG_LEFT as nat);
            lemma_be_bytes_of_single(TAG_RIGHT as nat);
        }
        match self {
            Err(error) => {
                TAG_LEFT.write_to_bytes_mut(target);
                error.write_to_bytes_mut(target);
            },
            Ok(value) => {
                TAG_RIGHT.write_to_bytes_mut(target);
                value.write_to_bytes_mut(target);
            },
        }
        proof {
            assert(target.written() =~= old(target).written() + self.encoding());
        }
    }
}

impl<U, E> ReadFromSource for Result<U, E> where U: ReadFromSource, E: ReadFromSource {
    type Error = ReadEitherError<E, U>;

    open spec fn spec_read(s: Seq<u8>, has_parent: bool) -> ReadOutcome<ReadEitherError<E, U>> {
        either_read_outcome::<E, U>(s, has_parent)
    }

    open spec fn insufficient_data(e: ReadEitherError<E, U>) -> bool {
        either_insufficient_data::<E, U>(e)
    }

    proof fn lemma_read_encoding(&self, rest: Seq<u8>) {
        match self {
            Err(error) => {
                let e = Either::<E, U>::Left(*error);
                assert(e.encoding() == self.encoding());
                e.lemma_read_encoding(rest);
            },
            Ok(value) => {
                let e = Either::<E, U>::Right(*value);
                assert(e.encoding() == self.encoding());
                e.lemma_read_encoding(rest);
            },
        }
    }

    proof fn lemma_read_truncated(&self, cut: int) {
        match self {
            Err(error) => {
                let e = Either::<E, U>::Left(*error);
                assert(e.encoding() == self.encoding());
                e.lemma_read_truncated(cut);
            },
            Ok(value) => {
                let e = Either::<E, U>::Right(*value);
                assert(e.encoding() == self.encoding());
                e.lemma_read_truncated(cut);
            },
        }
    }

    fn read_from_source<S>(source: &mut S) -> (r: Result<Self, ReadEitherError<E, U>>) where
        S: Source,
    {
        match Either::<E, U>::read_from_source(source) {
            Ok(either) => {
                let result = match either {
                    Either::Left(error) => Err(error),
                    Either::Right(value) => Ok(value),
                };
                proof {
                    assert(result.encoding() == either.encoding());
                }
                Ok(result)
            },
            Err(e) => Err(e),
        }
    }
}

/// The error of a two-element tuple decode, keeping the failing position
/// apart.
#[derive(Debug)]
pub enum ReadTuple2Error<A, B> where A: ReadFromSource, B: ReadFromSource {
    A(A::Error),
    B(B::Error),
}

/// How a two-element tuple decode treats its input: the elements decode in
/// order, and the first failure aborts the whole tuple.
pub open spec fn tuple2_read_outcome<A, B>(s: Seq<u8>, has_parent: bool) -> ReadOutcome<
    ReadTuple2Error<A, B>,
> where A: ReadFromSource, B: ReadFromSource {
    match A::spec_read(s, has_parent) {
        ReadOutcome::Failed { error, consumed } => ReadOutcome::Failed {
            error: ReadTuple2Error::A(error),
            consumed,
        },
        ReadOutcome::Done { consumed: first } => match B::spec_read(
            s.skip(first as int),
            has_parent,
        ) {
            ReadOutcome::Failed { error, consumed } => ReadOutcome::Failed {
                error: ReadTuple2Error::B(error),
                consumed: first + consumed,
            },
            ReadOutcome::Done { consumed: second } => ReadOutcome::Done {
                consumed: first + second,
            },
        },
    }
}

/// Which two-element tuple errors report insufficient input.
pub open spec fn tuple2_insufficient_data<A, B>(e: ReadTuple2Error<A, B>) -> bool where
    A: ReadFromSource,
    B: ReadFromSource,
 {
    match e {
        ReadTuple2Error::A(a) => A::insufficient_data(a),
        ReadTuple2Error::B(b) => B::insufficient_data(b),
    }
}

impl<A, B> WriteToBytesMut for (A, B) where A: WriteToBytesMut, B: WriteToBytesMut {
    open spec fn encodable(&self) -> bool {
        self.0.encodable() && self.1.encodable()
    }

    open spec fn encoding(&self) -> Seq<u8> {
        self.0.encoding() + self.1.encoding()
    }

    fn write_to_bytes_mut<T>(&self, target: &mut T) where T: Target {
        self.0.write_to_bytes_mut(target);
        self.1.write_to_bytes_mut(target);
        proof {
            assert(target.written() =~= old(target).written() + self.encoding());
        }
    }
}

impl<A, B> ReadFromSource for (A, B) where A: ReadFromSource, B: ReadFromSource {
    type Error = ReadTuple2Error<A, B>;

    open spec fn spec_read(s: Seq<u8>, has_parent: bool) -> ReadOutcome<ReadTuple2Error<A, B>> {
        tuple2_read_outcome::<A, B>(s, has_parent)
    }

    open spec fn insufficient_data(e: ReadTuple2Error<A, B>) -> bool {
        tuple2_insufficient_data::<A, B>(e)
    }

    proof fn lemma_read_encoding(&self, rest: Seq<u8>) {
        let s = self.encoding() + rest;
        assert(s =~= self.0.encoding() + (self.1.encoding() + rest));
        self.0.lemma_read_encoding(self.1.encoding() + rest);
        let first = self.0.encoding().len() as int;
        assert(s.skip(first) =~= self.1.encoding() + rest);
        self.1.lemma_read_encoding(rest);
    }

    #[verifier::rlimit(60)]
    proof fn lemma_read_truncated(&self, cut: int) {
        let t = self.encoding().take(cut);
        let first = self.0.encoding().len() as int;
        let second = self.1.encoding().len() as int;
        assert(self.encoding() == self.0.encoding() + self.1.encoding());
        assert(cut < first + second);
        if cut < first {
            assert(t =~= self.0.encoding().take(cut));
            self.0.lemma_read_truncated(cut);
            assert(A::spec_read(t, true) is Failed);
        } else {
            let tail = self.1.encoding().take(cut - first);
            assert(t =~= self.0.encoding() + tail);
            self.0.lemma_read_encoding(tail);
            assert(A::spec_read(t, true) == (ReadOutcome::<A::Error>::Done {
                consumed: first as nat,
            }));
            assert(t.skip(first) =~= tail);
            self.1.lemma_read_truncated(cut - first);
            assert(B::spec_read(t.skip(first), true) is Failed);
        }
    }

    fn read_from_source<S>(source: &mut S) -> (r: Result<Self, ReadTuple2Error<A, B>>) where
        S: Source,
    {
        let ghost s0 = old(source).slice_view();
        let ghost hp = old(source).parent() is Some;
        let a = match A::read_from_source(source) {
            Ok(a) => a,
            Err(e) => {
                return Err(ReadTuple2Error::A(e));
            },
        };
        let ghost first = a.encoding().len() as int;
        let b = match B::read_from_source(source) {
            Ok(b) => b,
            Err(e) => {
                proof {
                    if let ReadOutcome::Failed { error, consumed } = B::spec_read(
                        s0.skip(first),
                        hp,
                    ) {
                        assert(source.slice_view() =~= s0.skip(first + consumed as int));
                    }
                }
                return Err(ReadTuple2Error::B(e));
            },
        };
        proof {
            let second = b.encoding().len() as int;
            assert(a.encoding() + b.encoding() =~= s0.take(first + second));
            assert(source.slice_view() =~= s0.skip(first + second));
        }
        Ok((a, b))
    }
}

/// The error of a three-element tuple decode, keeping the failing position
/// apart.
#[derive(Debug)]
pub enum ReadTuple3Error<A, B, C> where A: ReadFromSource, B: ReadFromSource, C: ReadFromSource {
    A(A::Error),
    B(B::Error),
    C(C::Error),
}

/// How a three-element tuple decode treats its input: the elements decode
/// in order, and the first failure aborts the whole tuple.
pub open spec fn tuple3_read_outcome<A, B, C>(s: Seq<u8>, has_parent: bool) -> ReadOutcome<
    ReadTuple3Error<A, B, C>,
> where A: ReadFromSource, B: ReadFromSource, C: ReadFromSource {
    match A::spec_read(s, has_parent) {
        ReadOutcome::Failed { error, consumed } => ReadOutcome::Failed {
            error: ReadTuple3Error::A(error),
            consumed,
        },
        ReadOutcome::Done { consumed: first } => match B::spec_read(
            s.skip(first as int),
            has_parent,
        ) {
            ReadOutcome::Failed { error, consumed } => ReadOutcome::Failed {
                error: ReadTuple3Error::B(error),
                consumed: first + consumed,
            },
            ReadOutcome::Done { consumed: second } => match C::spec_read(
                s.skip(first + second as int),
                has_parent,
            ) {
                ReadOutcome::Failed { error, consumed } => ReadOutcome::Failed {
                    error: ReadTuple3Error::C(error),
                    consumed: first + second + consumed,
                },
                ReadOutcome::Done { consumed: third } => ReadOutcome::Done {
                    consumed: first + second + third,
                },
            },
        },
    }
}

/// Which three-element tuple errors report insufficient input.
pub open spec fn tuple3_insufficient_data<A, B, C>(e: ReadTuple3Error<A, B, C>) -> bool where
    A: ReadFromSource,
    B: ReadFromSource,
    C: ReadFromSource,
 {
    match e {
        ReadTuple3Error::A(a) => A::insufficient_data(a),
        ReadTuple3Error::B(b) => B::insufficient_data(b),
        ReadTuple3Error::C(c) => C::insufficient_data(c),
    }
}

impl<A, B, C> WriteToBytesMut for (A, B, C) where
    A: WriteToBytesMut,
    B: WriteToBytesMut,
    C: WriteToBytesMut,
 {
    open spec fn encodable(&self) -> bool {
        self.0.encodable() && self.1.encodable() && self.2.encodable()
    }

    open spec fn encoding(&self) -> Seq<u8> {
        self.0.encoding() + self.1.encoding() + self.2.encoding()
    }

    fn write_to_bytes_mut<T>(&self, target: &mut T) where T: Target {
        self.0.write_to_bytes_mut(target);
        self.1.write_to_bytes_mut(target);
        self.2.write_to_bytes_mut(target);
        proof {
            assert(target.written() =~= old(target).written() + self.encoding());
        }
    }
}

impl<A, B, C> ReadFromSource for (A, B, C) where
    A: ReadFromSource,
    B: ReadFromSource,
    C: ReadFromSource,
 {
    type Error = ReadTuple3Error<A, B, C>;

    open spec fn spec_read(s: Seq<u8>, has_parent: bool) -> ReadOutcome<
        ReadTuple3Error<A, B, C>,
    > {
        tuple3_read_outcome::<A, B, C>(s, has_parent)
    }

    open spec fn insufficient_data(e: ReadTuple3Error<A, B, C>) -> bool {
        tuple3_insufficient_data::<A, B, C>(e)
    }

    proof fn lemma_read_encoding(&self, rest: Seq<u8>) {
        let s = self.encoding() + rest;
        let first = self.0.encoding().len() as int;
        let second = self.1.encoding().len() as int;
        assert(s =~= self.0.encoding() + (self.1.encoding() + (self.2.encoding() + rest)));
        self.0.lemma_read_encoding(self.1.encoding() + (self.2.encoding() + rest));
        assert(s.skip(first) =~= self.1.encoding() + (self.2.encoding() + rest));
        self.1.lemma_read_encoding(self.2.encoding() + rest);
        assert(s.skip(first + second) =~= self.2.encoding() + rest);
        self.2.lemma_read_encoding(rest);
    }

    #[verifier::rlimit(60)]
    proof fn lemma_read_truncated(&self, cut: int) {
        let t = self.encoding().take(cut);
        let first = self.0.encoding().len() as int;
        let second = self.1.encoding().len() as int;
        let third = self.2.encoding().len() as int;
        assert(self.encoding() == self.0.encoding() + self.1.encoding() + self.2.encoding());
        assert(cut < first + second + third);
        if cut < first {
            assert(t =~= self.0.encoding().take(cut));
            self.0.lemma_read_truncated(cut);
            assert(A::spec_read(t, true) is Failed);
        } else {
            let tail = (self.1.encoding() + self.2.encoding()).take(cut - first);
            assert(t =~= self.0.encoding() + tail);
            self.0.lemma_read_encoding(tail);
            assert(A::spec_read(t, true) == (ReadOutcome::<A::Error>::Done {
                consumed: first as nat,
            }));
            assert(t.skip(first) =~= tail);
            if cut - first < second {
                assert(tail =~= self.1.encoding().take(cut - first));
                self.1.lemma_read_truncated(cut - first);
                assert(B::spec_read(t.skip(first), true) is Failed);
            } else {
                let rest = self.2.encoding().take(cut - first - second);
                assert(tail =~= self.1.encoding() + rest);
                self.1.lemma_read_encoding(rest);
                assert(B::spec_read(t.skip(first), true) == (ReadOutcome::<B::Error>::Done {
                    consumed: second as nat,
                }));
                assert(tail.skip(second) =~= rest);
                assert(t.skip(first + second) =~= rest);
                self.2.lemma_read_truncated(cut - first - second);
                assert(C::spec_read(t.skip(first + second), true) is Failed);
            }
        }
    }

    fn read_from_source<S>(source: &mut S) -> (r: Result<Self, ReadTuple3Error<A, B, C>>) where
        S: Source,
    {
        let ghost s0 = old(source).slice_view();
        let ghost hp = old(source).parent() is Some;
        let a = match A::read_from_source(source) {
            Ok(a) => a,
            Err(e) => {
                return Err(ReadTuple3Error::A(e));
            },
        };
        let ghost first = a.encoding().len() as int;
        let b = match B::read_from_source(source) {
            Ok(b) => b,
            Err(e) => {
                proof {
                    if let ReadOutcome::Failed { error, consumed } = B::spec_read(
                        s0.skip(first),
                        hp,
                    ) {
                        assert(source.slice_view() =~= s0.skip(first + consumed as int));
                    }
                }
                return Err(ReadTuple3Error::B(e));
            },
        };
        let ghost second = b.encoding().len() as int;
        proof {
            assert(s0.skip(first).skip(second) =~= s0.skip(first + second));
        }
        let c = match C::read_from_source(source) {
            Ok(c) => c,
            Err(e) => {
                proof {
                    if let ReadOutcome::Failed { error, consumed } = C::spec_read(
                        s0.skip(first + second),
                        hp,
                    ) {
                        assert(source.slice_view() =~= s0.skip(first + second + consumed as int));
                    }
                }
                return Err(ReadTuple3Error::C(e));
            },
        };
        proof {
            let third = c.encoding().len() as int;
            assert(a.encoding() + b.encoding() + c.encoding() =~= s0.take(first + second + third));
            assert(source.slice_view() =~= s0.skip(first + second + third));
        }
        Ok((a, b, c))
    }
}

} // verus!
