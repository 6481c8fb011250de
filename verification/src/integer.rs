use vstd::prelude::*;

verus! {

use crate::ReadFromSource;
use crate::ReadOutcome;
use crate::Source;
use crate::Target;
use crate::WriteToBytesMut;

/// The error of a fixed-width integer decode: fewer bytes remained than the
/// integer's width requires.
#[derive(Debug, PartialEq, Eq, Structural)]
pub enum ReadIntegerError {
    InvalidBytesCount { provided: usize, required: usize },
}

/// 256^width.
pub open spec fn pow256(width: nat) -> nat
    decreases width,
{
    if width == 0 {
        1
    } else {
        256 * pow256((width - 1) as nat)
    }
}

/// The big-endian bytes of `value` in `width` bytes (of `value` modulo
/// 256^width, when it does not fit).
pub open spec fn be_bytes_of(value: nat, width: nat) -> Seq<u8>
    decreases width,
{
    if width == 0 {
        Seq::empty()
    } else {
        be_bytes_of(value / 256, (width - 1) as nat).push((value % 256) as u8)
    }
}

/// The value of a big-endian byte sequence.
pub open spec fn be_val_of(s: Seq<u8>) -> nat
    decreases s.len(),
{
    if s.len() == 0 {
        0
    } else {
        (be_val_of(s.drop_last()) * 256 + s.last()) as nat
    }
}

pub proof fn lemma_be_bytes_of_len(value: nat, width: nat)
    ensures
        be_bytes_of(value, width).len() == width,
    decreases width,
{
    if width > 0 {
        lemma_be_bytes_of_len(value / 256, (width - 1) as nat);
    }
}

pub proof fn lemma_be_val_of_bound(s: Seq<u8>)
    ensures
        be_val_of(s) < pow256(s.len()),
    decreases s.len(),
{
    if s.len() > 0 {
        lemma_be_val_of_bound(s.drop_last());
    }
}

/// Decoding inverts encoding: the value of the big-endian bytes of `value`
/// is `value` again, whenever it fits the width.
pub proof fn lemma_be_val_of_be_bytes_of(value: nat, width: nat)
    requires
        value < pow256(width),
    ensures
        be_val_of(be_bytes_of(value, width)) == value,
    decreases width,
{
    if width > 0 {
        lemma_be_bytes_of_len(value / 256, (width - 1) as nat);
        lemma_be_val_of_be_bytes_of(value / 256, (width - 1) as nat);
        let s = be_bytes_of(value, width);
        assert(s.drop_last() =~= be_bytes_of(value / 256, (width - 1) as nat));
    }
}

/// Encoding inverts decoding: the big-endian bytes of the value of `s` are
/// `s` again.
pub proof fn lemma_be_bytes_of_be_val_of(s: Seq<u8>)
    ensures
        be_bytes_of(be_val_of(s), s.len()) == s,
    decreases s.len(),
{
    if s.len() > 0 {
        lemma_be_bytes_of_be_val_of(s.drop_last());
        let v = be_val_of(s);
        let t = s.drop_last();
        assert(v == be_val_of(t) * 256 + s.last());
        assert(v / 256 == be_val_of(t) && v % 256 == s.last()) by {
            vstd::arithmetic::div_mod::lemma_fundamental_div_mod_converse(
                v as int,
                256,
                be_val_of(t) as int,
                s.last() as int,
            );
        }
        assert(be_bytes_of(v, s.len()) =~= s);
    }
}

/// Two different values never share one big-endian image of a width that
/// holds them both.
pub proof fn lemma_be_bytes_of_injective(a: nat, b: nat, width: nat)
    requires
        a < pow256(width),
        b < pow256(width),
        be_bytes_of(a, width) == be_bytes_of(b, width),
    ensures
        a == b,
{
    lemma_be_val_of_be_bytes_of(a, width);
    lemma_be_val_of_be_bytes_of(b, width);
}

/// Appends the `width`-byte big-endian image of `value` to `out`.
fn push_be_bytes(value: u128, width: usize, out: &mut Vec<u8>)
    ensures
        final(out)@ == old(out)@ + be_bytes_of(value as nat, width as nat),
    decreases width,
{
    if width == 0 {
        proof {
            assert(out@ =~= old(out)@ + be_bytes_of(value as nat, 0));
        }
    } else {
        push_be_bytes(value / 256, width - 1, out);
        out.push((value % 256) as u8);
        proof {
            assert(out@ =~= old(out)@ + be_bytes_of(value as nat, width as nat));
        }
    }
}

/// The value of the first `width` big-endian bytes of `slice`.
fn read_be_bytes(slice: &[u8], width: usize) -> (r: u128)
    requires
        width <= 16,
        width <= slice@.len(),
    ensures
        r == be_val_of(slice@.subrange(0, width as int)),
    decreases width,
{
    proof {
        lemma_pow256_unfold_values();
        lemma_be_val_of_bound(slice@.subrange(0, width as int));
    }
    if width == 0 {
        0
    } else {
        let hi = read_be_bytes(slice, width - 1);
        proof {
            lemma_be_val_of_bound(slice@.subrange(0, width - 1));
            assert(slice@.subrange(0, width as int).drop_last() =~= slice@.subrange(
                0,
                width - 1,
            ));
            assert(pow256((width - 1) as nat) * 256 <= pow256(16)) by {
                lemma_pow256_increases((width - 1) as nat, 15);
            }
        }
        let b = slice[width - 1];
        hi * 256 + (b as u128)
    }
}

proof fn lemma_pow256_increases(a: nat, b: nat)
    requires
        a <= b,
    ensures
        pow256(a) * 256 <= pow256(b) * 256,
        pow256(a) <= pow256(b),
    decreases b,
{
    if a < b && b > 0 {
        lemma_pow256_increases(a, (b - 1) as nat);
    }
}

pub proof fn lemma_pow256_unfold_values()
    ensures
        pow256(1) == 0x100,
        pow256(2) == 0x10000,
        pow256(4) == 0x1_0000_0000,
        pow256(8) == 0x1_0000_0000_0000_0000,
        pow256(16) == 0x1_0000_0000_0000_0000_0000_0000_0000_0000,
{
    reveal_with_fuel(pow256, 17);
}

pub proof fn lemma_be_bytes_of_single(value: nat)
    requires
        value < 256,
    ensures
        be_bytes_of(value, 1) == seq![value as u8],
{
    reveal_with_fuel(be_bytes_of, 3);
    assert(be_bytes_of(value, 1) =~= seq![value as u8]);
}

/// The two's-complement image of `v` in an unsigned range of 256^width
/// values.
pub open spec fn to_unsigned_val(v: int, width: nat) -> nat {
    if v >= 0 {
        v as nat
    } else {
        (v + pow256(width)) as nat
    }
}

/// How a fixed-width integer decode treats its input: it fails exactly when
/// fewer than `width` bytes remain, consuming nothing, and otherwise
/// consumes `width` bytes.
pub open spec fn int_read_outcome(s: Seq<u8>, width: usize) -> ReadOutcome<ReadIntegerError> {
    if s.len() < width {
        ReadOutcome::Failed {
            error: ReadIntegerError::InvalidBytesCount {
                provided: s.len() as usize,
                required: width,
            },
            consumed: 0,
        }
    } else {
        ReadOutcome::Done { consumed: width as nat }
    }
}

/// Appends the `width`-byte big-endian image of `value` to any target.
fn write_be<T>(target: &mut T, value: u128, width: usize) where T: Target
    requires
        old(target).written().len() + width <= usize::MAX,
    ensures
        final(target).written() == old(target).written() + be_bytes_of(
            value as nat,
            width as nat,
        ),
{
    let mut out: Vec<u8> = Vec::new();
    push_be_bytes(value, width, &mut out);
    proof {
        lemma_be_bytes_of_len(value as nat, width as nat);
        assert(out@ =~= be_bytes_of(value as nat, width as nat));
    }
    target.extend_from_slice(out.as_slice());
}

/// Consumes the next `width` bytes of the source as one big-endian value,
/// or reports how few bytes remained, consuming nothing.
fn read_be<S>(source: &mut S, width: usize) -> (r: Result<u128, ReadIntegerError>) where S: Source
    requires
        old(source).wf(),
        1 <= width <= 16,
    ensures
        final(source).wf(),
        final(source).parent() == old(source).parent(),
        (match r {
            Ok(v) => old(source).slice_view().len() >= width && v == be_val_of(
                old(source).slice_view().take(width as int),
            ) && final(source).slice_view() == old(source).slice_view().skip(width as int),
            Err(e) => old(source).slice_view().len() < width && e
                == (ReadIntegerError::InvalidBytesCount {
                provided: old(source).slice_view().len() as usize,
                required: width,
            }) && final(source).slice_view() == old(source).slice_view(),
        }),
{
    let s = source.slice();
    if s.len() < width {
        return Err(ReadIntegerError::InvalidBytesCount { provided: s.len(), required: width });
    }
    let v = read_be_bytes(s, width);
    proof {
        assert(s@.subrange(0, width as int) =~= old(source).slice_view().take(width as int));
    }
    source.advance(width);
    Ok(v)
}

impl WriteToBytesMut for u32 {
    open spec fn encodable(&self) -> bool {
        true
    }

    open spec fn encoding(&self) -> Seq<u8> {
        be_bytes_of(*self as nat, 4)
    }

    fn write_to_bytes_mut<T>(&self, target: &mut T) where T: Target {
        proof {
            lemma_be_bytes_of_len(*self as nat, 4);
        }
        write_be(target, *self as u128, 4);
    }
}

impl ReadFromSource for u32 {
    type Error = ReadIntegerError;

    open spec fn spec_read(s: Seq<u8>, has_parent: bool) -> ReadOutcome<ReadIntegerError> {
        int_read_outcome(s, 4)
    }

    open spec fn insufficient_data(e: ReadIntegerError) -> bool {
        true
    }

    proof fn lemma_read_encoding(&self, rest: Seq<u8>) {
        lemma_be_bytes_of_len(*self as nat, 4);
    }

    proof fn lemma_read_truncated(&self, cut: int) {
        lemma_be_bytes_of_len(*self as nat, 4);
    }

    fn read_from_source<S>(source: &mut S) -> (r: Result<Self, ReadIntegerError>) where S: Source {
        match read_be(source, 4) {
            Ok(v) => {
                proof {
                    lemma_pow256_unfold_values();
                    let t = old(source).slice_view().take(4);
                    lemma_be_val_of_bound(t);
                    lemma_be_bytes_of_be_val_of(t);
                }
                Ok(v as u32)
            },
            Err(e) => Err(e),
        }
    }
}

impl WriteToBytesMut for u8 {
    open spec fn encodable(&self) -> bool {
        true
    }

    open spec fn encoding(&self) -> Seq<u8> {
        be_bytes_of(*self as nat, 1)
    }

    fn write_to_bytes_mut<T>(&self, target: &mut T) where T: Target {
        proof {
            assert(self.encoding() == be_bytes_of(*self as nat, 1));
            lemma_be_bytes_of_len(*self as nat, 1);
            assert(self.encoding().len() == 1);
        }
        write_be(target, *self as u128, 1);
    }
}

impl ReadFromSource for u8 {
    type Error = ReadIntegerError;

    open spec fn spec_read(s: Seq<u8>, has_parent: bool) -> ReadOutcome<ReadIntegerError> {
        int_read_outcome(s, 1)
    }

    open spec fn insufficient_data(e: ReadIntegerError) -> bool {
        true
    }

    proof fn lemma_read_encoding(&self, rest: Seq<u8>) {
        lemma_be_bytes_of_len(*self as nat, 1);
    }

    proof fn lemma_read_truncated(&self, cut: int) {
        lemma_be_bytes_of_len(*self as nat, 1);
    }

    fn read_from_source<S>(source: &mut S) -> (r: Result<Self, ReadIntegerError>) where S: Source {
        match read_be(source, 1) {
            Ok(v) => {
                proof {
                    lemma_pow256_unfold_values();
                    let t = old(source).slice_view().take(1);
                    lemma_be_val_of_bound(t);
                    lemma_be_bytes_of_be_val_of(t);
                    assert(t.len() == 1);
                    assert((v as u8) as nat == be_val_of(t));
                    assert((v as u8).encoding() == be_bytes_of((v as u8) as nat, 1));
                    assert((v as u8).encoding() == t);
                }
                Ok(v as u8)
            },
            Err(e) => Err(e),
        }
    }
}

impl WriteToBytesMut for u16 {
    open spec fn encodable(&self) -> bool {
        true
    }

    open spec fn encoding(&self) -> Seq<u8> {
        be_bytes_of(*self as nat, 2)
    }

    fn write_to_bytes_mut<T>(&self, target: &mut T) where T: Target {
        proof {
            lemma_be_bytes_of_len(*self as nat, 2);
        }
        write_be(target, *self as u128, 2);
    }
}

impl ReadFromSource for u16 {
    type Error = ReadIntegerError;

    open spec fn spec_read(s: Seq<u8>, has_parent: bool) -> ReadOutcome<ReadIntegerError> {
        int_read_outcome(s, 2)
    }

    open spec fn insufficient_data(e: ReadIntegerError) -> bool {
        true
    }

    proof fn lemma_read_encoding(&self, rest: Seq<u8>) {
        lemma_be_bytes_of_len(*self as nat, 2);
    }

    proof fn lemma_read_truncated(&self, cut: int) {
        lemma_be_bytes_of_len(*self as nat, 2);
    }

    fn read_from_source<S>(source: &mut S) -> (r: Result<Self, ReadIntegerError>) where S: Source {
        match read_be(source, 2) {
            Ok(v) => {
                proof {
                    lemma_pow256_unfold_values();
                    let t = old(source).slice_view().take(2);
                    lemma_be_val_of_bound(t);
                    lemma_be_bytes_of_be_val_of(t);
                }
                Ok(v as u16)
            },
            Err(e) => Err(e),
        }
    }
}

impl WriteToBytesMut for u64 {
    open spec fn encodable(&self) -> bool {
        true
    }

    open spec fn encoding(&self) -> Seq<u8> {
        be_bytes_of(*self as nat, 8)
    }

    fn write_to_bytes_mut<T>(&self, target: &mut T) where T: Target {
        proof {
            lemma_be_bytes_of_len(*self as nat, 8);
        }
        write_be(target, *self as u128, 8);
    }
}

impl ReadFromSource for u64 {
    type Error = ReadIntegerError;

    open spec fn spec_read(s: Seq<u8>, has_parent: bool) -> ReadOutcome<ReadIntegerError> {
        int_read_outcome(s, 8)
    }

    open spec fn insufficient_data(e: ReadIntegerError) -> bool {
        true
    }

    proof fn lemma_read_encoding(&self, rest: Seq<u8>) {
        lemma_be_bytes_of_len(*self as nat, 8);
    }

    proof fn lemma_read_truncated(&self, cut: int) {
        lemma_be_bytes_of_len(*self as nat, 8);
    }

    fn read_from_source<S>(source: &mut S) -> (r: Result<Self, ReadIntegerError>) where S: Source {
        match read_be(source, 8) {
            Ok(v) => {
                proof {
                    lemma_pow256_unfold_values();
                    let t = old(source).slice_view().take(8);
                    lemma_be_val_of_bound(t);
                    lemma_be_bytes_of_be_val_of(t);
                }
                Ok(v as u64)
            },
            Err(e) => Err(e),
        }
    }
}

impl WriteToBytesMut for u128 {
    open spec fn encodable(&self) -> bool {
        true
    }

    open spec fn encoding(&self) -> Seq<u8> {
        be_bytes_of(*self as nat, 16)
    }

    fn write_to_bytes_mut<T>(&self, target: &mut T) where T: Target {
        proof {
            lemma_be_bytes_of_len(*self as nat, 16);
        }
        write_be(target, *self, 16);
    }
}

impl ReadFromSource for u128 {
    type Error = ReadIntegerError;

    open spec fn spec_read(s: Seq<u8>, has_parent: bool) -> ReadOutcome<ReadIntegerError> {
        int_read_outcome(s, 16)
    }

    open spec fn insufficient_data(e: ReadIntegerError) -> bool {
        true
    }

    proof fn lemma_read_encoding(&self, rest: Seq<u8>) {
        lemma_be_bytes_of_len(*self as nat, 16);
    }

    proof fn lemma_read_truncated(&self, cut: int) {
        lemma_be_bytes_of_len(*self as nat, 16);
    }

    fn read_from_source<S>(source: &mut S) -> (r: Result<Self, ReadIntegerError>) where S: Source {
        match read_be(source, 16) {
            Ok(v) => {
                proof {
                    lemma_pow256_unfold_values();
                    let t = old(source).slice_view().take(16);
                    lemma_be_val_of_bound(t);
                    lemma_be_bytes_of_be_val_of(t);
                }
                Ok(v)
            },
            Err(e) => Err(e),
        }
    }
}

impl WriteToBytesMut for i8 {
    open spec fn encodable(&self) -> bool {
        true
    }

    open spec fn encoding(&self) -> Seq<u8> {
        be_bytes_of(to_unsigned_val(*self as int, 1), 1)
    }

    fn write_to_bytes_mut<T>(&self, target: &mut T) where T: Target {
        let u: u8 = if *self >= 0 {
            *self as u8
        } else {
            u8::MAX - ((-(*self + 1)) as u8)
        };
        proof {
            lemma_pow256_unfold_values();
            lemma_be_bytes_of_len(to_unsigned_val(*self as int, 1), 1);
            assert(u as nat == to_unsigned_val(*self as int, 1));
        }
        write_be(target, u as u128, 1);
    }
}

impl ReadFromSource for i8 {
    type Error = ReadIntegerError;

    open spec fn spec_read(s: Seq<u8>, has_parent: bool) -> ReadOutcome<ReadIntegerError> {
        int_read_outcome(s, 1)
    }

    open spec fn insufficient_data(e: ReadIntegerError) -> bool {
        true
    }

    proof fn lemma_read_encoding(&self, rest: Seq<u8>) {
        lemma_be_bytes_of_len(to_unsigned_val(*self as int, 1), 1);
    }

    proof fn lemma_read_truncated(&self, cut: int) {
        lemma_be_bytes_of_len(to_unsigned_val(*self as int, 1), 1);
    }

    fn read_from_source<S>(source: &mut S) -> (r: Result<Self, ReadIntegerError>) where S: Source {
        match read_be(source, 1) {
            Ok(v128) => {
                proof {
                    lemma_pow256_unfold_values();
                    let t = old(source).slice_view().take(1);
                    lemma_be_val_of_bound(t);
                    lemma_be_bytes_of_be_val_of(t);
                }
                let v = v128 as u8;
                let value: i8 = if v < 0x80u8 {
                    v as i8
                } else {
                    -((u8::MAX - v) as i8) - 1
                };
                proof {
                    assert(to_unsigned_val(value as int, 1) == v as nat);
                }
                Ok(value)
            },
            Err(e) => Err(e),
        }
    }
}

impl WriteToBytesMut for i16 {
    open spec fn encodable(&self) -> bool {
        true
    }

    open spec fn encoding(&self) -> Seq<u8> {
        be_bytes_of(to_unsigned_val(*self as int, 2), 2)
    }

    fn write_to_bytes_mut<T>(&self, target: &mut T) where T: Target {
        let u: u16 = if *self >= 0 {
            *self as u16
        } else {
            u16::MAX - ((-(*self + 1)) as u16)
        };
        proof {
            lemma_pow256_unfold_values();
            lemma_be_bytes_of_len(to_unsigned_val(*self as int, 2), 2);
            assert(u as nat == to_unsigned_val(*self as int, 2));
        }
        write_be(target, u as u128, 2);
    }
}

impl ReadFromSource for i16 {
    type Error = ReadIntegerError;

    open spec fn spec_read(s: Seq<u8>, has_parent: bool) -> ReadOutcome<ReadIntegerError> {
        int_read_outcome(s, 2)
    }

    open spec fn insufficient_data(e: ReadIntegerError) -> bool {
        true
    }

    proof fn lemma_read_encoding(&self, rest: Seq<u8>) {
        lemma_be_bytes_of_len(to_unsigned_val(*self as int, 2), 2);
    }

    proof fn lemma_read_truncated(&self, cut: int) {
        lemma_be_bytes_of_len(to_unsigned_val(*self as int, 2), 2);
    }

    fn read_from_source<S>(source: &mut S) -> (r: Result<Self, ReadIntegerError>) where S: Source {
        match read_be(source, 2) {
            Ok(v128) => {
                proof {
                    lemma_pow256_unfold_values();
                    let t = old(source).slice_view().take(2);
                    lemma_be_val_of_bound(t);
                    lemma_be_bytes_of_be_val_of(t);
                }
                let v = v128 as u16;
                let value: i16 = if v < 0x8000u16 {
                    v as i16
                } else {
                    -((u16::MAX - v) as i16) - 1
                };
                proof {
                    assert(to_unsigned_val(value as int, 2) == v as nat);
                }
                Ok(value)
            },
            Err(e) => Err(e),
        }
    }
}

impl WriteToBytesMut for i32 {
    open spec fn encodable(&self) -> bool {
        true
    }

    open spec fn encoding(&self) -> Seq<u8> {
        be_bytes_of(to_unsigned_val(*self as int, 4), 4)
    }

    fn write_to_bytes_mut<T>(&self, target: &mut T) where T: Target {
        let u: u32 = if *self >= 0 {
            *self as u32
        } else {
            u32::MAX - ((-(*self + 1)) as u32)
        };
        proof {
            lemma_pow256_unfold_values();
            lemma_be_bytes_of_len(to_unsigned_val(*self as int, 4), 4);
            assert(u as nat == to_unsigned_val(*self as int, 4));
        }
        write_be(target, u as u128, 4);
    }
}

impl ReadFromSource for i32 {
    type Error = ReadIntegerError;

    open spec fn spec_read(s: Seq<u8>, has_parent: bool) -> ReadOutcome<ReadIntegerError> {
        int_read_outcome(s, 4)
    }

    open spec fn insufficient_data(e: ReadIntegerError) -> bool {
        true
    }

    proof fn lemma_read_encoding(&self, rest: Seq<u8>) {
        lemma_be_bytes_of_len(to_unsigned_val(*self as int, 4), 4);
    }

    proof fn lemma_read_truncated(&self, cut: int) {
        lemma_be_bytes_of_len(to_unsigned_val(*self as int, 4), 4);
    }

    fn read_from_source<S>(source: &mut S) -> (r: Result<Self, ReadIntegerError>) where S: Source {
        match read_be(source, 4) {
            Ok(v128) => {
                proof {
                    lemma_pow256_unfold_values();
                    let t = old(source).slice_view().take(4);
                    lemma_be_val_of_bound(t);
                    lemma_be_bytes_of_be_val_of(t);
                }
                let v = v128 as u32;
                let value: i32 = if v < 0x8000_0000u32 {
                    v as i32
                } else {
                    -((u32::MAX - v) as i32) - 1
                };
                proof {
                    assert(to_unsigned_val(value as int, 4) == v as nat);
                }
                Ok(value)
            },
            Err(e) => Err(e),
        }
    }
}

impl WriteToBytesMut for i64 {
    open spec fn encodable(&self) -> bool {
        true
    }

    open spec fn encoding(&self) -> Seq<u8> {
        be_bytes_of(to_unsigned_val(*self as int, 8), 8)
    }

    fn write_to_bytes_mut<T>(&self, target: &mut T) where T: Target {
        let u: u64 = if *self >= 0 {
            *self as u64
        } else {
            u64::MAX - ((-(*self + 1)) as u64)
        };
        proof {
            lemma_pow256_unfold_values();
            lemma_be_bytes_of_len(to_unsigned_val(*self as int, 8), 8);
            assert(u as nat == to_unsigned_val(*self as int, 8));
        }
        write_be(target, u as u128, 8);
    }
}

impl ReadFromSource for i64 {
    type Error = ReadIntegerError;

    open spec fn spec_read(s: Seq<u8>, has_parent: bool) -> ReadOutcome<ReadIntegerError> {
        int_read_outcome(s, 8)
    }

    open spec fn insufficient_data(e: ReadIntegerError) -> bool {
        true
    }

    proof fn lemma_read_encoding(&self, rest: Seq<u8>) {
        lemma_be_bytes_of_len(to_unsigned_val(*self as int, 8), 8);
    }

    proof fn lemma_read_truncated(&self, cut: int) {
        lemma_be_bytes_of_len(to_unsigned_val(*self as int, 8), 8);
    }

    fn read_from_source<S>(source: &mut S) -> (r: Result<Self, ReadIntegerError>) where S: Source {
        match read_be(source, 8) {
            Ok(v128) => {
                proof {
                    lemma_pow256_unfold_values();
                    let t = old(source).slice_view().take(8);
                    lemma_be_val_of_bound(t);
                    lemma_be_bytes_of_be_val_of(t);
                }
                let v = v128 as u64;
                let value: i64 = if v < 0x8000_0000_0000_0000u64 {
                    v as i64
                } else {
                    -((u64::MAX - v) as i64) - 1
                };
                proof {
                    assert(to_unsigned_val(value as int, 8) == v as nat);
                }
                Ok(value)
            },
            Err(e) => Err(e),
        }
    }
}

impl WriteToBytesMut for i128 {
    open spec fn encodable(&self) -> bool {
        true
    }

    open spec fn encoding(&self) -> Seq<u8> {
        be_bytes_of(to_unsigned_val(*self as int, 16), 16)
    }

    fn write_to_bytes_mut<T>(&self, target: &mut T) where T: Target {
        let u: u128 = if *self >= 0 {
            *self as u128
        } else {
            u128::MAX - ((-(*self + 1)) as u128)
        };
        proof {
            lemma_pow256_unfold_values();
            lemma_be_bytes_of_len(to_unsigned_val(*self as int, 16), 16);
            assert(u as nat == to_unsigned_val(*self as int, 16));
        }
        write_be(target, u, 16);
    }
}

impl ReadFromSource for i128 {
    type Error = ReadIntegerError;

    open spec fn spec_read(s: Seq<u8>, has_parent: bool) -> ReadOutcome<ReadIntegerError> {
        int_read_outcome(s, 16)
    }

    open spec fn insufficient_data(e: ReadIntegerError) -> bool {
        true
    }

    proof fn lemma_read_encoding(&self, rest: Seq<u8>) {
        lemma_be_bytes_of_len(to_unsigned_val(*self as int, 16), 16);
    }

    proof fn lemma_read_truncated(&self, cut: int) {
        lemma_be_bytes_of_len(to_unsigned_val(*self as int, 16), 16);
    }

    fn read_from_source<S>(source: &mut S) -> (r: Result<Self, ReadIntegerError>) where S: Source {
        match read_be(source, 16) {
            Ok(v) => {
                proof {
                    lemma_pow256_unfold_values();
                    let t = old(source).slice_view().take(16);
                    lemma_be_val_of_bound(t);
                    lemma_be_bytes_of_be_val_of(t);
                }
                let value: i128 = if v < 0x8000_0000_0000_0000_0000_0000_0000_0000u128 {
                    v as i128
                } else {
                    -((u128::MAX - v) as i128) - 1
                };
                proof {
                    assert(to_unsigned_val(value as int, 16) == v as nat);
                }
                Ok(value)
            },
            Err(e) => Err(e),
        }
    }
}

} // verus!
