use heed::bounds::{Bound, KeyRange};
use heed::codec::{ByteSlice, DecodeIgnore, Str, Unit, BEU16};
use heed::cursor::{RoCursor, RwCursor};
use heed::db::PolyDatabase;
use heed::env::{Env, RwTxn};
use heed::error::{CodecError, Error};
use heed::iter::{forward_step, backward_step, IterState, RoRange, RoRevRange, RwRange};

fn raw_table(keys: &[&[u8]]) -> (Env, RwTxn, PolyDatabase) {
    let env = Env::new(2, 4);
    let mut wtxn = env.write_txn();
    let db = wtxn.create_poly_database().unwrap();
    for k in keys {
        db.put::<ByteSlice, ByteSlice>(&mut wtxn, k, k).unwrap();
    }
    (env, wtxn, db)
}

fn prefix_keys(db: &PolyDatabase, txn: &RwTxn, prefix: &[u8]) -> Vec<Vec<u8>> {
    let mut it = db.prefix_iter::<ByteSlice, DecodeIgnore>(txn, prefix).unwrap();
    let mut out = Vec::new();
    while let Some(step) = it.next() {
        out.push(step.unwrap().0);
    }
    out
}

fn rev_prefix_keys(db: &PolyDatabase, txn: &RwTxn, prefix: &[u8]) -> Vec<Vec<u8>> {
    let mut it = db.rev_prefix_iter::<ByteSlice, DecodeIgnore>(txn, prefix).unwrap();
    let mut out = Vec::new();
    while let Some(step) = it.next() {
        out.push(step.unwrap().0);
    }
    out
}

#[test]
fn prefix_of_full_bytes_keeps_longer_keys() {
    let stored: [&[u8]; 7] =
        [&[1], &[1, 255], &[1, 255, 0], &[1, 255, 255], &[1, 255, 255, 7], &[2], &[2, 0]];
    let (_env, wtxn, db) = raw_table(&stored);
    assert_eq!(
        prefix_keys(&db, &wtxn, &[1, 255]),
        vec![vec![1, 255], vec![1, 255, 0], vec![1, 255, 255], vec![1, 255, 255, 7]]
    );
    assert_eq!(
        rev_prefix_keys(&db, &wtxn, &[1, 255]),
        vec![vec![1, 255, 255, 7], vec![1, 255, 255], vec![1, 255, 0], vec![1, 255]]
    );
    assert_eq!(prefix_keys(&db, &wtxn, &[1, 255, 255]), vec![vec![1, 255, 255], vec![1, 255, 255, 7]]);
    assert_eq!(prefix_keys(&db, &wtxn, &[2]), vec![vec![2], vec![2, 0]]);
    assert_eq!(rev_prefix_keys(&db, &wtxn, &[2]), vec![vec![2, 0], vec![2]]);
    assert_eq!(prefix_keys(&db, &wtxn, &[3]), Vec::<Vec<u8>>::new());
    assert_eq!(rev_prefix_keys(&db, &wtxn, &[0]), Vec::<Vec<u8>>::new());
}

#[test]
fn empty_prefix_matches_every_key() {
    let stored: [&[u8]; 3] = [&[], &[0], &[255, 255]];
    let (_env, wtxn, db) = raw_table(&stored);
    assert_eq!(prefix_keys(&db, &wtxn, &[]), vec![vec![], vec![0], vec![255, 255]]);
    assert_eq!(rev_prefix_keys(&db, &wtxn, &[]), vec![vec![255, 255], vec![0], vec![]]);
    assert_eq!(prefix_keys(&db, &wtxn, &[255]), vec![vec![255, 255]]);
    assert_eq!(rev_prefix_keys(&db, &wtxn, &[255]), vec![vec![255, 255]]);
}

#[test]
fn shorter_keys_never_match_a_prefix() {
    let stored: [&[u8]; 3] = [&[5], &[5, 5], &[5, 5, 5]];
    let (_env, wtxn, db) = raw_table(&stored);
    assert_eq!(prefix_keys(&db, &wtxn, &[5, 5]), vec![vec![5, 5], vec![5, 5, 5]]);
    assert_eq!(prefix_keys(&db, &wtxn, &[5, 5, 5, 5]), Vec::<Vec<u8>>::new());
}

#[test]
fn walks_end_for_good() {
    let stored: [&[u8]; 2] = [&[1], &[2]];
    let (_env, mut wtxn, db) = raw_table(&stored);
    let mut it = db.iter_mut::<ByteSlice, ByteSlice>(&mut wtxn).unwrap();
    assert_eq!(it.delete_current(), Ok(false));
    assert_eq!(it.replace_current(&[9]), Ok(false));
    assert_eq!(it.next(), Some(Ok((vec![1], vec![1]))));
    assert_eq!(it.next(), Some(Ok((vec![2], vec![2]))));
    assert_eq!(it.next(), None);
    assert_eq!(it.replace_current(&[9]), Ok(false));
    assert_eq!(it.delete_current(), Ok(false));
    assert_eq!(it.next(), None);
    drop(it);
    assert_eq!(db.len(&wtxn), Ok(2));
}

#[test]
fn a_walk_past_its_interval_deletes_nothing() {
    let stored: [&[u8]; 3] = [&[1], &[2], &[3]];
    let (_env, mut wtxn, db) = raw_table(&stored);
    let one: &[u8] = &[1];
    let range = KeyRange::inclusive(one, one);
    let mut it = db.range_mut::<ByteSlice, ByteSlice>(&mut wtxn, &range).unwrap();
    assert_eq!(it.next(), Some(Ok((vec![1], vec![1]))));
    assert_eq!(it.next(), None);
    assert_eq!(it.delete_current(), Ok(false));
    assert_eq!(it.replace_current(&[9]), Ok(false));
    drop(it);
    assert_eq!(db.len(&wtxn), Ok(3));
    assert_eq!(db.get::<ByteSlice, ByteSlice>(&wtxn, &[2]), Ok(Some(vec![2])));
}

#[test]
fn deleting_twice_deletes_once() {
    let stored: [&[u8]; 3] = [&[1], &[2], &[3]];
    let (_env, mut wtxn, db) = raw_table(&stored);
    let mut it = db.rev_iter_mut::<ByteSlice, ByteSlice>(&mut wtxn).unwrap();
    assert_eq!(it.next(), Some(Ok((vec![3], vec![3]))));
    assert_eq!(it.delete_current(), Ok(true));
    assert_eq!(it.delete_current(), Ok(false));
    assert_eq!(it.replace_current(&[9]), Ok(false));
    assert_eq!(it.next(), Some(Ok((vec![2], vec![2]))));
    assert_eq!(it.next(), Some(Ok((vec![1], vec![1]))));
    assert_eq!(it.next(), None);
    drop(it);
    assert_eq!(db.len(&wtxn), Ok(2));
}

#[test]
fn deleting_every_entry_of_a_walk_empties_its_interval() {
    let stored: [&[u8]; 5] = [&[1], &[2], &[3], &[4], &[5]];
    let (_env, mut wtxn, db) = raw_table(&stored);
    let (lo, hi): (&[u8], &[u8]) = (&[2], &[5]);
    let range = KeyRange::half_open(lo, hi);
    let mut it = db.rev_range_mut::<ByteSlice, DecodeIgnore>(&mut wtxn, &range).unwrap();
    let mut seen = Vec::new();
    while let Some(step) = it.next() {
        seen.push(step.unwrap().0);
        assert_eq!(it.delete_current(), Ok(true));
    }
    drop(it);
    assert_eq!(seen, vec![vec![4], vec![3], vec![2]]);
    assert_eq!(prefix_keys(&db, &wtxn, &[]), vec![vec![1], vec![5]]);
}

#[test]
fn replacing_through_a_walk_overwrites_the_value() {
    let env = Env::new(2, 4);
    let mut wtxn = env.write_txn();
    let db = wtxn.create_poly_database().unwrap();
    db.put::<BEU16, Str>(&mut wtxn, &1, "one").unwrap();
    let mut it = db.iter_mut::<BEU16, Str>(&mut wtxn).unwrap();
    assert_eq!(it.next(), Some(Ok((1, "one".to_string()))));
    assert_eq!(it.replace_current("uno"), Ok(true));
    assert_eq!(it.next(), None);
    drop(it);
    assert_eq!(db.get::<BEU16, Str>(&wtxn, &1), Ok(Some("uno".to_string())));
}

#[test]
fn a_decode_error_does_not_stop_the_cursor() {
    let env = Env::new(2, 4);
    let mut wtxn = env.write_txn();
    let db = wtxn.create_poly_database().unwrap();
    db.put::<ByteSlice, Unit>(&mut wtxn, &[0, 1], &()).unwrap();
    db.put::<ByteSlice, Unit>(&mut wtxn, &[0, 2, 0], &()).unwrap();
    db.put::<ByteSlice, Unit>(&mut wtxn, &[0, 3], &()).unwrap();
    let mut it = db.iter::<BEU16, Unit>(&wtxn).unwrap();
    assert_eq!(it.next(), Some(Ok((1, ()))));
    assert_eq!(it.next(), Some(Err(Error::Decoding(CodecError::InvalidLength))));
    assert_eq!(it.next(), Some(Ok((3, ()))));
    assert_eq!(it.next(), None);
}

#[test]
fn steps_drive_the_state_machine() {
    let stored: [&[u8]; 3] = [&[1], &[2], &[3]];
    let (_env, wtxn, _db) = raw_table(&stored);
    let mut cursor = RoCursor::new(&wtxn, 0).unwrap();
    let mut state = IterState::Unstarted;
    let lo = Bound::Excluded(vec![1]);
    let hi = Bound::Excluded(vec![3]);
    assert_eq!(forward_step(&mut cursor, &mut state, &lo, &hi), Some((&[2u8][..], &[2u8][..])));
    assert_eq!(state, IterState::Positioned);
    assert_eq!(forward_step(&mut cursor, &mut state, &lo, &hi), None);
    assert_eq!(state, IterState::Exhausted);
    assert_eq!(forward_step(&mut cursor, &mut state, &lo, &hi), None);
    let mut state = IterState::Unstarted;
    let hi = Bound::Included(vec![2, 0]);
    assert_eq!(backward_step(&mut cursor, &mut state, &lo, &hi), Some((&[2u8][..], &[2u8][..])));
    assert_eq!(state, IterState::Positioned);
    assert_eq!(backward_step(&mut cursor, &mut state, &lo, &hi), None);
    assert_eq!(state, IterState::Exhausted);
}

#[test]
fn walks_can_be_built_on_a_cursor() {
    let stored: [&[u8]; 3] = [&[1], &[2], &[3]];
    let (_env, mut wtxn, _db) = raw_table(&stored);
    let cursor = RoCursor::new(&wtxn, 0).unwrap();
    let mut it: RoRange<ByteSlice, DecodeIgnore> =
        RoRange::new(cursor, Bound::Included(vec![2]), Bound::Unbounded);
    assert_eq!(it.next(), Some(Ok((vec![2], ()))));
    assert_eq!(it.next(), Some(Ok((vec![3], ()))));
    assert_eq!(it.next(), None);
    let cursor = RoCursor::new(&wtxn, 0).unwrap();
    let mut it: RoRevRange<ByteSlice, DecodeIgnore> =
        RoRevRange::new(cursor, Bound::Unbounded, Bound::Excluded(vec![3]));
    assert_eq!(it.next(), Some(Ok((vec![2], ()))));
    assert_eq!(it.next(), Some(Ok((vec![1], ()))));
    assert_eq!(it.next(), None);
    let cursor = RwCursor::new(&mut wtxn, 0).unwrap();
    let mut it: RwRange<ByteSlice, ByteSlice> =
        RwRange::new(cursor, Bound::Unbounded, Bound::Unbounded);
    assert_eq!(it.next(), Some(Ok((vec![1], vec![1]))));
    assert_eq!(it.replace_current(&[9, 9]), Ok(true));
    drop(it);
    assert_eq!(wtxn.raw_get(0, &[1]), Ok(Some(&[9u8, 9][..])));
}
