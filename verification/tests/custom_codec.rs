use heed::bounds::{Bound, KeyRange};
use heed::codec::{BytesDecode, BytesEncode, FixedBytes, Str, Unit, BEU16};
use heed::db::PolyDatabase;
use heed::env::{Env, RwTxn};
use heed::error::{CodecError, Error};
use heed::reserved::ReservedSpace;

type Pair = FixedBytes<2>;

const REFUSED: Error = Error::Encoding(CodecError::InvalidLength);

fn pairs() -> (Env, RwTxn, PolyDatabase) {
    let env = Env::new(11, 2);
    let mut wtxn = env.write_txn();
    let db = wtxn.create_poly_database().unwrap();
    db.put::<Pair, Pair>(&mut wtxn, &[0, 1], &[3, 3]).unwrap();
    db.put::<Pair, Pair>(&mut wtxn, &[0, 5], &[7, 7]).unwrap();
    (env, wtxn, db)
}

#[test]
fn fixed_bytes_take_one_length_only() {
    assert_eq!(Pair::bytes_encode(&[1, 2]), Ok(vec![1, 2]));
    assert_eq!(Pair::bytes_encode(&[1]), Err(CodecError::InvalidLength));
    assert_eq!(Pair::bytes_encode(&[1, 2, 3]), Err(CodecError::InvalidLength));
    assert_eq!(Pair::bytes_decode(&[1, 2]), Ok(vec![1, 2]));
    assert_eq!(Pair::bytes_decode(&[]), Err(CodecError::InvalidLength));
    assert_eq!(FixedBytes::<0>::bytes_encode(&[]), Ok(vec![]));
}

#[test]
fn a_key_that_does_not_encode_is_refused() {
    let (_env, mut wtxn, db) = pairs();
    let bad: &[u8] = &[2];
    assert_eq!(db.get::<Pair, Pair>(&wtxn, bad), Err(REFUSED));
    assert_eq!(db.get_lower_than::<Pair, Pair>(&wtxn, bad), Err(REFUSED));
    assert_eq!(db.get_lower_than_or_equal_to::<Pair, Pair>(&wtxn, bad), Err(REFUSED));
    assert_eq!(db.get_greater_than::<Pair, Pair>(&wtxn, bad), Err(REFUSED));
    assert_eq!(db.get_greater_than_or_equal_to::<Pair, Pair>(&wtxn, bad), Err(REFUSED));
    assert_eq!(db.put::<Pair, Pair>(&mut wtxn, bad, &[1, 1]), Err(REFUSED));
    assert_eq!(db.put::<Pair, Pair>(&mut wtxn, &[0, 1], bad), Err(REFUSED));
    assert_eq!(db.append::<Pair, Pair>(&mut wtxn, bad, &[1, 1]), Err(REFUSED));
    assert_eq!(db.append::<Pair, Pair>(&mut wtxn, &[0, 9], bad), Err(REFUSED));
    assert_eq!(db.delete::<Pair>(&mut wtxn, bad), Err(REFUSED));
    let r = db.put_reserved::<Pair, _>(&mut wtxn, bad, 1, |s: &mut ReservedSpace| s.write_all(&[1]));
    assert_eq!(r, Err(REFUSED));
    assert!(matches!(db.prefix_iter::<Pair, Pair>(&wtxn, bad), Err(e) if e == REFUSED));
    assert!(matches!(db.rev_prefix_iter::<Pair, Pair>(&wtxn, bad), Err(e) if e == REFUSED));
    assert!(matches!(db.prefix_iter_mut::<Pair, Pair>(&mut wtxn, bad), Err(e) if e == REFUSED));
    assert!(matches!(db.rev_prefix_iter_mut::<Pair, Pair>(&mut wtxn, bad), Err(e) if e == REFUSED));
    assert_eq!(db.len(&wtxn), Ok(2));
    assert_eq!(db.get::<Pair, Pair>(&wtxn, &[0, 1]), Ok(Some(vec![3, 3])));
}

#[test]
fn a_key_is_encoded_before_the_table_is_looked_up() {
    let (_env, mut wtxn, _db) = pairs();
    let stray = PolyDatabase::new(11, 9);
    let bad: &[u8] = &[2];
    assert_eq!(stray.get::<Pair, Pair>(&wtxn, bad), Err(REFUSED));
    assert_eq!(stray.put::<Pair, Pair>(&mut wtxn, bad, &[1, 1]), Err(REFUSED));
    assert_eq!(stray.delete::<Pair>(&mut wtxn, bad), Err(REFUSED));
    assert!(matches!(stray.prefix_iter::<Pair, Pair>(&wtxn, bad), Err(e) if e == REFUSED));
    let range = KeyRange::new(Bound::Included(bad), Bound::Unbounded);
    assert!(matches!(stray.range::<Pair, Pair>(&wtxn, &range), Err(e) if e == REFUSED));
}

#[test]
fn a_neighbour_query_opens_its_cursor_first() {
    let (_env, wtxn, _db) = pairs();
    let stray = PolyDatabase::new(11, 9);
    let bad: &[u8] = &[2];
    let unknown = Error::Engine(heed::error::EngineError::UnknownTable);
    assert_eq!(stray.get_lower_than::<Pair, Pair>(&wtxn, bad), Err(unknown));
    assert_eq!(stray.get_lower_than_or_equal_to::<Pair, Pair>(&wtxn, bad), Err(unknown));
    assert_eq!(stray.get_greater_than::<Pair, Pair>(&wtxn, bad), Err(unknown));
    assert_eq!(stray.get_greater_than_or_equal_to::<Pair, Pair>(&wtxn, bad), Err(unknown));
}

#[test]
fn a_bound_that_does_not_encode_is_refused() {
    let (_env, mut wtxn, db) = pairs();
    let (bad, good): (&[u8], &[u8]) = (&[2], &[0, 5]);
    let bad_start = KeyRange::new(Bound::Excluded(bad), Bound::Included(good));
    let bad_end = KeyRange::new(Bound::Included(good), Bound::Excluded(bad));
    assert!(matches!(db.range::<Pair, Pair>(&wtxn, &bad_start), Err(e) if e == REFUSED));
    assert!(matches!(db.range::<Pair, Pair>(&wtxn, &bad_end), Err(e) if e == REFUSED));
    assert!(matches!(db.rev_range::<Pair, Pair>(&wtxn, &bad_end), Err(e) if e == REFUSED));
    assert!(matches!(db.range_mut::<Pair, Pair>(&mut wtxn, &bad_start), Err(e) if e == REFUSED));
    assert!(matches!(db.rev_range_mut::<Pair, Pair>(&mut wtxn, &bad_end), Err(e) if e == REFUSED));
    assert_eq!(db.delete_range::<Pair>(&mut wtxn, &bad_end), Err(REFUSED));
    assert_eq!(db.len(&wtxn), Ok(2));
}

#[test]
fn a_value_that_does_not_encode_replaces_no_entry() {
    let (_env, mut wtxn, db) = pairs();
    let mut it = db.iter_mut::<Pair, Pair>(&mut wtxn).unwrap();
    assert_eq!(it.next(), Some(Ok((vec![0, 1], vec![3, 3]))));
    assert_eq!(it.replace_current(&[4]), Err(REFUSED));
    assert_eq!(it.replace_current(&[9, 9]), Ok(true));
    assert_eq!(it.next(), Some(Ok((vec![0, 5], vec![7, 7]))));
    drop(it);
    assert_eq!(db.get::<Pair, Pair>(&wtxn, &[0, 1]), Ok(Some(vec![9, 9])));
}

#[test]
fn delete_range_stops_at_a_key_that_does_not_decode() {
    let (_env, mut wtxn, db) = pairs();
    db.put::<Str, Unit>(&mut wtxn, "\u{0}\u{3}x", &()).unwrap();
    let (lo, hi): (&[u8], &[u8]) = (&[0, 1], &[0, 5]);
    let range = KeyRange::inclusive(lo, hi);
    assert_eq!(
        db.delete_range::<Pair>(&mut wtxn, &range),
        Err(Error::Decoding(CodecError::InvalidLength))
    );
    assert_eq!(db.len(&wtxn), Ok(2));
    assert_eq!(db.get::<Pair, Pair>(&wtxn, &[0, 1]), Ok(None));
    assert_eq!(db.get::<Str, Unit>(&wtxn, "\u{0}\u{3}x"), Ok(Some(())));
    assert_eq!(db.get::<Pair, Pair>(&wtxn, &[0, 5]), Ok(Some(vec![7, 7])));
}

#[test]
fn delete_range_that_fails_on_its_first_key_removes_nothing() {
    let (_env, mut wtxn, db) = pairs();
    db.put::<Str, Unit>(&mut wtxn, "\u{0}", &()).unwrap();
    let range: KeyRange<[u8]> = KeyRange::all();
    assert_eq!(
        db.delete_range::<Pair>(&mut wtxn, &range),
        Err(Error::Decoding(CodecError::InvalidLength))
    );
    assert_eq!(db.len(&wtxn), Ok(3));
    assert_eq!(db.get::<Pair, Pair>(&wtxn, &[0, 1]), Ok(Some(vec![3, 3])));
}

#[test]
fn delete_range_does_not_read_keys_outside_its_interval() {
    let (_env, mut wtxn, db) = pairs();
    db.put::<Str, Unit>(&mut wtxn, "\u{0}\u{3}x", &()).unwrap();
    db.put::<Str, Unit>(&mut wtxn, "\u{0}", &()).unwrap();
    let (lo, hi): (&[u8], &[u8]) = (&[0, 4], &[0, 9]);
    let range = KeyRange::inclusive(lo, hi);
    assert_eq!(db.delete_range::<Pair>(&mut wtxn, &range), Ok(1));
    let (lo, hi): (&[u8], &[u8]) = (&[0, 1], &[0, 3]);
    let range = KeyRange::half_open(lo, hi);
    assert_eq!(db.delete_range::<Pair>(&mut wtxn, &range), Ok(1));
    assert_eq!(db.len(&wtxn), Ok(2));
    assert_eq!(db.get::<Str, Unit>(&wtxn, "\u{0}\u{3}x"), Ok(Some(())));
    assert_eq!(db.get::<Str, Unit>(&wtxn, "\u{0}"), Ok(Some(())));
}

#[test]
fn uniform_delete_range_passes_the_decoding_error_on() {
    let (_env, mut wtxn, poly) = pairs();
    poly.put::<Str, Unit>(&mut wtxn, "\u{0}\u{3}x", &()).unwrap();
    let db = poly.as_uniform::<Pair, Pair>();
    let range: KeyRange<[u8]> = KeyRange::all();
    assert_eq!(
        db.delete_range(&mut wtxn, &range),
        Err(Error::Decoding(CodecError::InvalidLength))
    );
    assert_eq!(db.len(&wtxn), Ok(2));
    assert_eq!(db.first(&wtxn), Err(Error::Decoding(CodecError::InvalidLength)));
    assert_eq!(db.last(&wtxn), Ok(Some((vec![0, 5], vec![7, 7]))));
}

#[test]
fn a_codec_may_refuse_what_it_reads() {
    let (_env, mut wtxn, db) = pairs();
    db.put::<Pair, BEU16>(&mut wtxn, &[0, 3], &4).unwrap();
    assert_eq!(db.get::<Pair, Pair>(&wtxn, &[0, 3]), Ok(Some(vec![0, 4])));
    db.put::<Pair, Unit>(&mut wtxn, &[0, 3], &()).unwrap();
    assert_eq!(
        db.get::<Pair, Pair>(&wtxn, &[0, 3]),
        Err(Error::Decoding(CodecError::InvalidLength))
    );
    let mut it = db.rev_iter::<Pair, Pair>(&wtxn).unwrap();
    assert_eq!(it.next(), Some(Ok((vec![0, 5], vec![7, 7]))));
    assert_eq!(it.next(), Some(Err(Error::Decoding(CodecError::InvalidLength))));
    assert_eq!(it.next(), Some(Ok((vec![0, 1], vec![3, 3]))));
    assert_eq!(it.next(), None);
}
