use bin_codec::ReadFromSource;
use bin_codec::Source;
use bin_codec::SourceBytesOwned;
use bin_codec::SourceSlice;
use bin_codec::Target;
use bin_codec::TargetCounter;
use bin_codec::WriteToBytesMut;
use bin_codec::bytes::Bytes;
use bin_codec::bytes::BytesPool;
use bin_codec::bytes::ReadBytesError;
use bin_codec::combinators::ReadEitherError;
use bin_codec::combinators::ReadTuple2Error;
use bin_codec::integer::ReadIntegerError;
use either::Either;

#[test]
fn serialize_deserialize_two_integers() {
    let bytes_pool = BytesPool::new();
    let mut bytes_mut = bytes_pool.lend();

    let a = 77_u32;
    let b = 144_u64;
    a.write_to_bytes_mut(&mut bytes_mut);
    b.write_to_bytes_mut(&mut bytes_mut);

    let mut source_bytes = SourceBytesOwned::from(bytes_mut.freeze());
    let aa = u32::read_from_source(&mut source_bytes).unwrap();
    let bb = u64::read_from_source(&mut source_bytes).unwrap();
    assert_eq!(a, aa);
    assert_eq!(b, bb);
    assert_eq!(source_bytes.slice().len(), 0);
}

#[test]
fn serialize_deserialize_complex() {
    let bytes_pool = BytesPool::new();
    let mut data_mut = bytes_pool.lend();
    data_mut.extend_from_slice("test string".as_bytes());
    let data = data_mut.freeze();

    type ComplexType = (Option<u16>, Result<Bytes, u8>);
    let complex: ComplexType = (Some(13), Ok(data));
    let bytes = bin_codec::write(&bytes_pool, &complex);
    let mut source_bytes = SourceBytesOwned::from(bytes);
    let deserialized = ComplexType::read_from_source(&mut source_bytes).unwrap();
    assert_eq!(deserialized, complex);
    assert_eq!(source_bytes.slice().len(), 0);
}

#[test]
fn option_none_wire_format() {
    let bytes_pool = BytesPool::new();
    let value: Option<u16> = None;
    let bytes = bin_codec::write(&bytes_pool, &value);
    assert_eq!(bytes.as_slice(), &[0x01u8][..]);

    let mut source = SourceBytesOwned::from(bytes);
    let decoded = Option::<u16>::read_from_source(&mut source).unwrap();
    assert_eq!(decoded, None);
    assert_eq!(source.slice().len(), 0);
}

#[test]
fn byte_range_truncated_payload() {
    let bytes_pool = BytesPool::new();
    let mut bytes_mut = bytes_pool.lend();
    5_u32.write_to_bytes_mut(&mut bytes_mut);
    bytes_mut.extend_from_slice(&[10, 20, 30]);

    let mut source = SourceBytesOwned::from(bytes_mut.freeze());
    match Bytes::read_from_source(&mut source) {
        Err(ReadBytesError::NotEnoughBytes { required, provided }) => {
            assert_eq!(required, 5);
            assert_eq!(provided, 3);
        },
        _ => panic!("expected NotEnoughBytes"),
    }
}

#[test]
fn invalid_union_tag() {
    let bytes_pool = BytesPool::new();
    let mut bytes_mut = bytes_pool.lend();
    bytes_mut.extend_from_slice(&[0x03]);

    let mut source = SourceBytesOwned::from(bytes_mut.freeze());
    match Either::<u8, u16>::read_from_source(&mut source) {
        Err(ReadEitherError::InvalidTag(tag)) => assert_eq!(tag, 3),
        _ => panic!("expected InvalidTag"),
    }
}

#[test]
fn zero_copy_shares_allocation() {
    let bytes_pool = BytesPool::new();
    let mut payload_mut = bytes_pool.lend();
    payload_mut.extend_from_slice(b"hello");
    let payload = payload_mut.freeze();

    let encoded = bin_codec::write(&bytes_pool, &payload);
    assert_eq!(encoded.as_slice(), &[0, 0, 0, 5, b'h', b'e', b'l', b'l', b'o'][..]);

    let mut source = SourceBytesOwned::from(encoded.clone());
    let decoded = Bytes::read_from_source(&mut source).unwrap();
    assert_eq!(decoded.as_slice(), b"hello");
    assert_eq!(source.slice().len(), 0);
    assert!(decoded.shares_allocation_with(&encoded));
    assert_eq!(decoded.offset_in_backing(), encoded.offset_in_backing() + 4);
}

#[test]
fn zero_copy_outlives_other_handles() {
    let bytes_pool = BytesPool::new();
    let mut payload_mut = bytes_pool.lend();
    payload_mut.extend_from_slice(b"keep me");
    let payload = payload_mut.freeze();

    let encoded = bin_codec::write(&bytes_pool, &payload);
    let mut source = SourceBytesOwned::from(encoded);
    let decoded = Bytes::read_from_source(&mut source).unwrap();
    drop(source);
    assert_eq!(decoded.as_slice(), b"keep me");
}

#[test]
fn borrowed_source_has_no_byte_ranges() {
    let bytes_pool = BytesPool::new();
    let mut payload_mut = bytes_pool.lend();
    payload_mut.extend_from_slice(b"abc");
    let encoded = bin_codec::write(&bytes_pool, &payload_mut.freeze());

    let backing: Vec<u8> = encoded.as_slice().to_vec();
    let mut source = SourceSlice::from(&backing[..]);
    match Bytes::read_from_source(&mut source) {
        Err(ReadBytesError::NoBytesAvailable) => {},
        _ => panic!("expected NoBytesAvailable"),
    }
}

#[test]
fn borrowed_source_reads_integers() {
    let backing: Vec<u8> = vec![0x12, 0x34, 0xff];
    let mut source = SourceSlice::from(&backing[..]);
    assert_eq!(u16::read_from_source(&mut source).unwrap(), 0x1234);
    assert_eq!(i8::read_from_source(&mut source).unwrap(), -1);
    assert_eq!(source.slice().len(), 0);
}

#[test]
fn integer_wire_formats() {
    let bytes_pool = BytesPool::new();
    assert_eq!(bin_codec::write(&bytes_pool, &0x01020304_u32).as_slice(), &[1, 2, 3, 4][..]);
    assert_eq!(bin_codec::write(&bytes_pool, &0x1234_u16).as_slice(), &[0x12, 0x34][..]);
    assert_eq!(bin_codec::write(&bytes_pool, &0xff_u8).as_slice(), &[0xff][..]);
    assert_eq!(bin_codec::write(&bytes_pool, &(-1_i8)).as_slice(), &[0xff][..]);
    assert_eq!(bin_codec::write(&bytes_pool, &(-2_i16)).as_slice(), &[0xff, 0xfe][..]);
    assert_eq!(bin_codec::write(&bytes_pool, &(-1_i32)).as_slice(), &[0xff, 0xff, 0xff, 0xff][..]);
    assert_eq!(
        bin_codec::write(&bytes_pool, &1_u64).as_slice(),
        &[0, 0, 0, 0, 0, 0, 0, 1][..],
    );
    assert_eq!(
        bin_codec::write(&bytes_pool, &(-1_i64)).as_slice(),
        &[0xff; 8][..],
    );
    assert_eq!(
        bin_codec::write(&bytes_pool, &1_u128).as_slice(),
        &[0, 0, 0, 0, 0, 0, 0, 0, 0, 0, 0, 0, 0, 0, 0, 1][..],
    );
    assert_eq!(
        bin_codec::write(&bytes_pool, &(-1_i128)).as_slice(),
        &[0xff; 16][..],
    );
}

#[test]
fn signed_integer_round_trips() {
    let bytes_pool = BytesPool::new();

    let v16: i16 = -12345;
    let mut source = SourceBytesOwned::from(bin_codec::write(&bytes_pool, &v16));
    assert_eq!(i16::read_from_source(&mut source).unwrap(), v16);

    let v32: i32 = i32::MIN;
    let mut source = SourceBytesOwned::from(bin_codec::write(&bytes_pool, &v32));
    assert_eq!(i32::read_from_source(&mut source).unwrap(), v32);

    let v64: i64 = i64::MIN + 7;
    let mut source = SourceBytesOwned::from(bin_codec::write(&bytes_pool, &v64));
    assert_eq!(i64::read_from_source(&mut source).unwrap(), v64);

    let v128: i128 = i128::MIN;
    let mut source = SourceBytesOwned::from(bin_codec::write(&bytes_pool, &v128));
    assert_eq!(i128::read_from_source(&mut source).unwrap(), v128);

    let u: u128 = u128::MAX - 9;
    let mut source = SourceBytesOwned::from(bin_codec::write(&bytes_pool, &u));
    assert_eq!(u128::read_from_source(&mut source).unwrap(), u);
}

#[test]
fn integer_insufficient_bytes() {
    let bytes_pool = BytesPool::new();
    let mut bytes_mut = bytes_pool.lend();
    bytes_mut.extend_from_slice(&[1, 2]);

    let mut source = SourceBytesOwned::from(bytes_mut.freeze());
    match u32::read_from_source(&mut source) {
        Err(ReadIntegerError::InvalidBytesCount { provided, required }) => {
            assert_eq!(provided, 2);
            assert_eq!(required, 4);
        },
        Ok(_) => panic!("expected InvalidBytesCount"),
    }
    assert_eq!(source.slice().len(), 2);
}

#[test]
fn either_round_trips() {
    let bytes_pool = BytesPool::new();

    let left: Either<u8, u32> = Either::Left(7);
    let bytes = bin_codec::write(&bytes_pool, &left);
    assert_eq!(bytes.as_slice(), &[1, 7][..]);
    let mut source = SourceBytesOwned::from(bytes);
    assert_eq!(Either::<u8, u32>::read_from_source(&mut source).unwrap(), left);

    let right: Either<u8, u32> = Either::Right(300);
    let bytes = bin_codec::write(&bytes_pool, &right);
    assert_eq!(bytes.as_slice(), &[2, 0, 0, 1, 44][..]);
    let mut source = SourceBytesOwned::from(bytes);
    assert_eq!(Either::<u8, u32>::read_from_source(&mut source).unwrap(), right);
}

#[test]
fn either_tag_unreadable() {
    let bytes_pool = BytesPool::new();
    let mut source = SourceBytesOwned::from(bytes_pool.lend().freeze());
    match Either::<u8, u16>::read_from_source(&mut source) {
        Err(ReadEitherError::Tag(ReadIntegerError::InvalidBytesCount { provided, required })) => {
            assert_eq!(provided, 0);
            assert_eq!(required, 1);
        },
        _ => panic!("expected Tag error"),
    }
}

#[test]
fn either_payload_error_keeps_branch() {
    let bytes_pool = BytesPool::new();
    let mut bytes_mut = bytes_pool.lend();
    bytes_mut.extend_from_slice(&[2, 0]);

    let mut source = SourceBytesOwned::from(bytes_mut.freeze());
    match Either::<u8, u32>::read_from_source(&mut source) {
        Err(ReadEitherError::Right(ReadIntegerError::InvalidBytesCount { provided, required })) => {
            assert_eq!(provided, 1);
            assert_eq!(required, 4);
        },
        _ => panic!("expected Right error"),
    }
}

#[test]
fn result_err_round_trip() {
    let bytes_pool = BytesPool::new();
    let value: Result<u32, u8> = Err(9);
    let bytes = bin_codec::write(&bytes_pool, &value);
    assert_eq!(bytes.as_slice(), &[1, 9][..]);

    let mut source = SourceBytesOwned::from(bytes);
    assert_eq!(Result::<u32, u8>::read_from_source(&mut source).unwrap(), value);
    assert_eq!(source.slice().len(), 0);
}

#[test]
fn tuple3_round_trip() {
    let bytes_pool = BytesPool::new();
    let value: (u8, u16, u32) = (1, 2, 3);
    let bytes = bin_codec::write(&bytes_pool, &value);
    assert_eq!(bytes.as_slice(), &[1, 0, 2, 0, 0, 0, 3][..]);

    let mut source = SourceBytesOwned::from(bytes);
    assert_eq!(<(u8, u16, u32)>::read_from_source(&mut source).unwrap(), value);
    assert_eq!(source.slice().len(), 0);
}

#[test]
fn tuple_decode_reports_position() {
    let bytes_pool = BytesPool::new();
    let mut bytes_mut = bytes_pool.lend();
    3_u16.write_to_bytes_mut(&mut bytes_mut);
    bytes_mut.extend_from_slice(&[1]);

    let mut source = SourceBytesOwned::from(bytes_mut.freeze());
    match <(u16, u32)>::read_from_source(&mut source) {
        Err(ReadTuple2Error::B(ReadIntegerError::InvalidBytesCount { provided, required })) => {
            assert_eq!(provided, 1);
            assert_eq!(required, 4);
        },
        _ => panic!("expected an error at the second position"),
    }
}

#[test]
fn unit_consumes_nothing() {
    let bytes_pool = BytesPool::new();
    let bytes = bin_codec::write(&bytes_pool, &());
    assert_eq!(bytes.as_slice(), &[][..]);

    let mut bytes_mut = bytes_pool.lend();
    bytes_mut.extend_from_slice(&[42]);
    let mut source = SourceBytesOwned::from(bytes_mut.freeze());
    <()>::read_from_source(&mut source).unwrap();
    assert_eq!(source.slice().len(), 1);
}

#[test]
fn counting_target_matches_encoded_length() {
    let bytes_pool = BytesPool::new();
    let value: (Option<u16>, Result<u64, u8>) = (Some(5), Ok(6));

    let mut counter = TargetCounter::default();
    value.write_to_bytes_mut(&mut counter);

    let bytes = bin_codec::write(&bytes_pool, &value);
    assert_eq!(counter.bytes_written(), bytes.len());
    assert_eq!(counter.bytes_written(), 12);
}

#[test]
fn subrange_narrows_without_copying() {
    let bytes_pool = BytesPool::new();
    let mut bytes_mut = bytes_pool.lend();
    bytes_mut.extend_from_slice(b"hello world");
    let bytes = bytes_mut.freeze();

    let sub = bytes.subrange(6, 11);
    assert_eq!(sub.as_slice(), b"world");
    assert_eq!(sub.len(), 5);
    assert!(sub.shares_allocation_with(&bytes));
    assert_eq!(sub.offset_in_backing(), 6);

    let mut other_mut = bytes_pool.lend();
    other_mut.extend_from_slice(b"world");
    let other = other_mut.freeze();
    assert_eq!(sub, other);
    assert!(!sub.shares_allocation_with(&other));
}

#[test]
fn source_advances_monotonically() {
    let bytes_pool = BytesPool::new();
    let mut bytes_mut = bytes_pool.lend();
    bytes_mut.extend_from_slice(&[1, 2, 3, 4, 5]);
    let bytes = bytes_mut.freeze();

    let mut owned = SourceBytesOwned::from(bytes.clone());
    owned.advance(2);
    assert_eq!(owned.slice(), &[3, 4, 5][..]);
    assert!(owned.parent_bytes().is_some());

    let mut referencing = bin_codec::SourceBytesRef::from(&bytes);
    referencing.advance(4);
    assert_eq!(referencing.slice(), &[5][..]);
    assert!(referencing.parent_bytes().is_some());

    let backing: Vec<u8> = vec![9, 8, 7];
    let mut borrowed = SourceSlice::from(&backing[..]);
    assert!(borrowed.parent_bytes().is_none());
    borrowed.advance(1);
    assert_eq!(borrowed.slice(), &[8, 7][..]);
}

#[test]
fn byte_range_prefix_unreadable() {
    let bytes_pool = BytesPool::new();
    let mut bytes_mut = bytes_pool.lend();
    bytes_mut.extend_from_slice(&[0, 0]);

    let mut source = SourceBytesOwned::from(bytes_mut.freeze());
    match Bytes::read_from_source(&mut source) {
        Err(ReadBytesError::BytesCount(ReadIntegerError::InvalidBytesCount {
            provided,
            required,
        })) => {
            assert_eq!(provided, 2);
            assert_eq!(required, 4);
        },
        _ => panic!("expected BytesCount"),
    }
}

#[test]
fn empty_byte_range_round_trip() {
    let bytes_pool = BytesPool::new();
    let empty = bytes_pool.lend().freeze();
    let encoded = bin_codec::write(&bytes_pool, &empty);
    assert_eq!(encoded.as_slice(), &[0, 0, 0, 0][..]);

    let mut source = SourceBytesOwned::from(encoded);
    let decoded = Bytes::read_from_source(&mut source).unwrap();
    assert_eq!(decoded.len(), 0);
    assert_eq!(source.slice().len(), 0);
}

#[test]
fn either_left_payload_error() {
    let bytes_pool = BytesPool::new();
    let mut bytes_mut = bytes_pool.lend();
    bytes_mut.extend_from_slice(&[1]);

    let mut source = SourceBytesOwned::from(bytes_mut.freeze());
    match Either::<u32, u8>::read_from_source(&mut source) {
        Err(ReadEitherError::Left(ReadIntegerError::InvalidBytesCount { provided, required })) => {
            assert_eq!(provided, 0);
            assert_eq!(required, 4);
        },
        _ => panic!("expected Left error"),
    }
}

#[test]
fn tuple_decode_reports_first_position() {
    let bytes_pool = BytesPool::new();
    let mut source = SourceBytesOwned::from(bytes_pool.lend().freeze());
    match <(u16, u32)>::read_from_source(&mut source) {
        Err(ReadTuple2Error::A(ReadIntegerError::InvalidBytesCount { provided, required })) => {
            assert_eq!(provided, 0);
            assert_eq!(required, 2);
        },
        _ => panic!("expected an error at the first position"),
    }
}

#[test]
fn tuple3_decode_reports_third_position() {
    let bytes_pool = BytesPool::new();
    let mut bytes_mut = bytes_pool.lend();
    bytes_mut.extend_from_slice(&[1, 2, 0]);

    let mut source = SourceBytesOwned::from(bytes_mut.freeze());
    match <(u8, u8, u16)>::read_from_source(&mut source) {
        Err(bin_codec::combinators::ReadTuple3Error::C(ReadIntegerError::InvalidBytesCount {
            provided,
            required,
        })) => {
            assert_eq!(provided, 1);
            assert_eq!(required, 2);
        },
        _ => panic!("expected an error at the third position"),
    }
}

#[test]
fn truncation_always_fails() {
    let bytes_pool = BytesPool::new();

    let pair: (u32, u64) = (0xAABBCCDD, 0x1122334455667788);
    let encoded = bin_codec::write(&bytes_pool, &pair);
    let full = encoded.len();
    assert_eq!(full, 12);
    for cut in 0..full {
        let truncated = encoded.subrange(0, cut);
        let mut source = SourceBytesOwned::from(truncated);
        assert!(<(u32, u64)>::read_from_source(&mut source).is_err());
    }

    let mut payload_mut = bytes_pool.lend();
    payload_mut.extend_from_slice(b"test string");
    let complex: (Option<u16>, Result<Bytes, u8>) = (Some(13), Ok(payload_mut.freeze()));
    let encoded = bin_codec::write(&bytes_pool, &complex);
    let full = encoded.len();
    assert_eq!(full, 19);
    for cut in 0..full {
        let truncated = encoded.subrange(0, cut);
        let mut source = SourceBytesOwned::from(truncated);
        assert!(<(Option<u16>, Result<Bytes, u8>)>::read_from_source(&mut source).is_err());
    }
}
