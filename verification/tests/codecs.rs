use heed::bounds::{encode_bound, key_above_start, key_below_end, prefix_bounds, Bound};
use heed::codec::{
    decode_be, encode_be, ByteSlice, BytesDecode, BytesEncode, DecodeIgnore, Str, Unit, BEI32,
    BEI64, BEU16, BEU32, BEU64,
};
use heed::error::{CodecError, Error};
use heed::iter::decode_entry;

#[test]
fn big_endian_bytes_are_most_significant_first() {
    assert_eq!(BEU64::bytes_encode(&258), Ok(vec![0, 0, 0, 0, 0, 0, 1, 2]));
    assert_eq!(BEU32::bytes_encode(&0x0102_0304), Ok(vec![1, 2, 3, 4]));
    assert_eq!(BEU16::bytes_encode(&0xfffe), Ok(vec![0xff, 0xfe]));
    assert_eq!(BEU64::bytes_encode(&u64::MAX), Ok(vec![0xff; 8]));
    assert_eq!(encode_be(0x01_0203, 3), vec![1, 2, 3]);
    assert_eq!(encode_be(0x01_0203, 2), vec![2, 3]);
    assert_eq!(encode_be(7, 0), Vec::<u8>::new());
    assert_eq!(decode_be(&[1, 2, 3]), 0x01_0203);
    assert_eq!(decode_be(&[]), 0);
}

#[test]
fn signed_bytes_are_twos_complement() {
    assert_eq!(BEI32::bytes_encode(&-1), Ok(vec![0xff, 0xff, 0xff, 0xff]));
    assert_eq!(BEI32::bytes_encode(&i32::MIN), Ok(vec![0x80, 0, 0, 0]));
    assert_eq!(BEI32::bytes_encode(&i32::MAX), Ok(vec![0x7f, 0xff, 0xff, 0xff]));
    assert_eq!(BEI64::bytes_encode(&-2), Ok(vec![0xff, 0xff, 0xff, 0xff, 0xff, 0xff, 0xff, 0xfe]));
    assert_eq!(BEI64::bytes_encode(&35), Ok(vec![0, 0, 0, 0, 0, 0, 0, 35]));
}

#[test]
fn numbers_round_trip() {
    for v in [0u64, 1, 255, 256, 1 << 40, u64::MAX] {
        assert_eq!(BEU64::bytes_decode(&BEU64::bytes_encode(&v).unwrap()), Ok(v));
    }
    for v in [0u32, 1, 65_536, u32::MAX] {
        assert_eq!(BEU32::bytes_decode(&BEU32::bytes_encode(&v).unwrap()), Ok(v));
    }
    for v in [0u16, 1, 256, u16::MAX] {
        assert_eq!(BEU16::bytes_decode(&BEU16::bytes_encode(&v).unwrap()), Ok(v));
    }
    for v in [0i64, 1, -1, i64::MIN, i64::MAX, -123_456_789] {
        assert_eq!(BEI64::bytes_decode(&BEI64::bytes_encode(&v).unwrap()), Ok(v));
    }
    for v in [0i32, 1, -1, i32::MIN, i32::MAX, 27_000] {
        assert_eq!(BEI32::bytes_decode(&BEI32::bytes_encode(&v).unwrap()), Ok(v));
    }
}

#[test]
fn strings_round_trip() {
    for s in ["", "i-am-forty-two", "héllo wörld", "日本語", "\u{10348}"] {
        let bytes = Str::bytes_encode(s).unwrap();
        assert_eq!(bytes, s.as_bytes().to_vec());
        assert_eq!(Str::bytes_decode(&bytes), Ok(s.to_string()));
    }
}

#[test]
fn strings_refuse_bytes_that_are_not_utf8() {
    assert_eq!(Str::bytes_decode(&[0xff]), Err(CodecError::InvalidUtf8));
    assert_eq!(Str::bytes_decode(&[0xc3]), Err(CodecError::InvalidUtf8));
    assert_eq!(Str::bytes_decode(&[0xed, 0xa0, 0x80]), Err(CodecError::InvalidUtf8));
    assert_eq!(Str::bytes_decode(&[0xc3, 0xa9]), Ok("é".to_string()));
}

#[test]
fn numbers_refuse_other_lengths() {
    assert_eq!(BEU64::bytes_decode(&[1, 2, 3]), Err(CodecError::InvalidLength));
    assert_eq!(BEU64::bytes_decode(&[0; 9]), Err(CodecError::InvalidLength));
    assert_eq!(BEU32::bytes_decode(&[]), Err(CodecError::InvalidLength));
    assert_eq!(BEU16::bytes_decode(&[1]), Err(CodecError::InvalidLength));
    assert_eq!(BEI64::bytes_decode(&[0; 4]), Err(CodecError::InvalidLength));
    assert_eq!(BEI32::bytes_decode(&[0; 8]), Err(CodecError::InvalidLength));
}

#[test]
fn unit_is_the_empty_string() {
    assert_eq!(Unit::bytes_encode(&()), Ok(vec![]));
    assert_eq!(Unit::bytes_decode(&[]), Ok(()));
    assert_eq!(Unit::bytes_decode(&[0]), Err(CodecError::InvalidLength));
}

#[test]
fn decode_ignore_takes_anything() {
    assert_eq!(DecodeIgnore::bytes_decode(&[]), Ok(()));
    assert_eq!(DecodeIgnore::bytes_decode(&[1, 2, 3]), Ok(()));
}

#[test]
fn byte_slices_are_kept_as_they_are() {
    assert_eq!(ByteSlice::bytes_encode(&[3, 1, 2]), Ok(vec![3, 1, 2]));
    assert_eq!(ByteSlice::bytes_decode(&[3, 1, 2]), Ok(vec![3, 1, 2]));
}

#[test]
fn big_endian_keeps_the_order_of_numbers() {
    let numbers = [0u64, 1, 2, 255, 256, 257, 65_535, 65_536, 1 << 32, u64::MAX - 1, u64::MAX];
    for w in numbers.windows(2) {
        let a = BEU64::bytes_encode(&w[0]).unwrap();
        let b = BEU64::bytes_encode(&w[1]).unwrap();
        assert!(a < b);
        assert_eq!(heed::bytes::compare(&a, &b), heed::bytes::KeyOrder::Less);
    }
}

#[test]
fn entries_decode_key_first() {
    let both_bad = decode_entry::<BEU32, Str>(&[1], &[0xff]);
    assert_eq!(both_bad, Err(Error::Decoding(CodecError::InvalidLength)));
    let value_bad = decode_entry::<BEU32, Str>(&[0, 0, 0, 1], &[0xff]);
    assert_eq!(value_bad, Err(Error::Decoding(CodecError::InvalidUtf8)));
    let good = decode_entry::<BEU32, Str>(&[0, 0, 0, 1], b"x");
    assert_eq!(good, Ok((1, "x".to_string())));
}

#[test]
fn bounds_encode_with_the_key_codec() {
    assert_eq!(encode_bound::<BEU16>(&Bound::Included(&1)), Ok(Bound::Included(vec![0, 1])));
    assert_eq!(encode_bound::<BEU16>(&Bound::Excluded(&258)), Ok(Bound::Excluded(vec![1, 2])));
    assert_eq!(encode_bound::<BEU16>(&Bound::Unbounded), Ok(Bound::Unbounded));
}

#[test]
fn keys_are_held_against_bounds() {
    let k = [1u8, 2];
    assert!(key_above_start(&k, &Bound::Included(vec![1, 2])));
    assert!(!key_above_start(&k, &Bound::Excluded(vec![1, 2])));
    assert!(key_above_start(&k, &Bound::Excluded(vec![1, 1, 9])));
    assert!(!key_above_start(&k, &Bound::Included(vec![1, 2, 0])));
    assert!(key_above_start(&k, &Bound::Unbounded));
    assert!(key_below_end(&k, &Bound::Included(vec![1, 2])));
    assert!(!key_below_end(&k, &Bound::Excluded(vec![1, 2])));
    assert!(key_below_end(&k, &Bound::Excluded(vec![1, 2, 0])));
    assert!(!key_below_end(&k, &Bound::Included(vec![1, 1, 255])));
    assert!(key_below_end(&k, &Bound::Unbounded));
}

#[test]
fn prefix_bounds_end_at_the_successor() {
    assert_eq!(
        prefix_bounds(vec![1, 2]),
        (Bound::Included(vec![1, 2]), Bound::Excluded(vec![1, 3]))
    );
    assert_eq!(
        prefix_bounds(vec![1, 255]),
        (Bound::Included(vec![1, 255]), Bound::Excluded(vec![2]))
    );
    assert_eq!(prefix_bounds(vec![255]), (Bound::Included(vec![255]), Bound::Unbounded));
    assert_eq!(prefix_bounds(vec![]), (Bound::Included(vec![]), Bound::Unbounded));
}

#[test]
fn negative_numbers_sort_after_the_others() {
    let enc = |v: i32| BEI32::bytes_encode(&v).unwrap();
    assert!(enc(0) < enc(5));
    assert!(enc(5) < enc(i32::MAX));
    assert!(enc(i32::MAX) < enc(i32::MIN));
    assert!(enc(i32::MIN) < enc(-5));
    assert!(enc(-5) < enc(-1));
    let wide = |v: i64| BEI64::bytes_encode(&v).unwrap();
    assert!(wide(7) < wide(-7));
    assert!(wide(-8) < wide(-7));
}
