use heed::codec::{ByteSlice, Unit, BEU16};
use heed::cursor::{Position, RoCursor, RwCursor};
use heed::db::PolyDatabase;
use heed::env::{Env, RwTxn, WriteMode};
use heed::error::{EngineError, Error};

fn three_keys() -> (Env, RwTxn, PolyDatabase) {
    let env = Env::new(1, 4);
    let mut wtxn = env.write_txn();
    let db = wtxn.create_poly_database().unwrap();
    db.put::<BEU16, ByteSlice>(&mut wtxn, &10, &[1]).unwrap();
    db.put::<BEU16, ByteSlice>(&mut wtxn, &20, &[2]).unwrap();
    db.put::<BEU16, ByteSlice>(&mut wtxn, &30, &[3]).unwrap();
    (env, wtxn, db)
}

fn entry(k: u16, v: u8) -> Result<Option<(Vec<u8>, Vec<u8>)>, Error> {
    Ok(Some((k.to_be_bytes().to_vec(), vec![v])))
}

fn owned(r: Result<Option<(&[u8], &[u8])>, Error>) -> Result<Option<(Vec<u8>, Vec<u8>)>, Error> {
    r.map(|o| o.map(|(k, v)| (k.to_vec(), v.to_vec())))
}

#[test]
fn cursor_cannot_step_before_it_is_placed() {
    let (_env, wtxn, _db) = three_keys();
    let mut cursor = RoCursor::new(&wtxn, 0).unwrap();
    assert_eq!(cursor.pos(), Position::Unset);
    let unplaced = Err(Error::Engine(EngineError::CursorUnpositioned));
    assert_eq!(owned(cursor.move_to_next()), unplaced);
    assert_eq!(owned(cursor.move_to_prev()), unplaced);
    assert_eq!(cursor.current(), None);
    assert_eq!(owned(cursor.move_to_first()), entry(10, 1));
    assert_eq!(owned(cursor.move_to_next()), entry(20, 2));
}

#[test]
fn cursor_walks_both_ways() {
    let (_env, wtxn, _db) = three_keys();
    let mut cursor = RoCursor::new(&wtxn, 0).unwrap();
    assert_eq!(owned(cursor.move_to_last()), entry(30, 3));
    assert_eq!(cursor.pos(), Position::On(2));
    assert_eq!(owned(cursor.move_to_next()), Ok(None));
    assert_eq!(cursor.pos(), Position::Gap(3));
    assert_eq!(owned(cursor.move_to_next()), Ok(None));
    assert_eq!(owned(cursor.move_to_prev()), entry(30, 3));
    assert_eq!(owned(cursor.move_to_prev()), entry(20, 2));
    assert_eq!(owned(cursor.move_to_prev()), entry(10, 1));
    assert_eq!(owned(cursor.move_to_prev()), Ok(None));
    assert_eq!(cursor.pos(), Position::Gap(0));
    assert_eq!(owned(cursor.move_to_next()), entry(10, 1));
    assert_eq!(owned(Ok(cursor.current())), entry(10, 1));
}

#[test]
fn cursor_seeks_the_first_key_at_or_after() {
    let (_env, wtxn, _db) = three_keys();
    let mut cursor = RoCursor::new(&wtxn, 0).unwrap();
    assert_eq!(owned(cursor.move_to_key_at_or_after(&[0, 20])), entry(20, 2));
    assert_eq!(owned(cursor.move_to_key_at_or_after(&[0, 21])), entry(30, 3));
    assert_eq!(owned(cursor.move_to_key_at_or_after(&[0])), entry(10, 1));
    assert_eq!(owned(cursor.move_to_key_at_or_after(&[0, 30, 0])), Ok(None));
    assert_eq!(owned(cursor.move_to_prev()), entry(30, 3));
}

#[test]
fn cursor_on_an_empty_table_finds_nothing() {
    let env = Env::new(1, 4);
    let mut wtxn = env.write_txn();
    wtxn.create_poly_database().unwrap();
    let mut cursor = RoCursor::new(&wtxn, 0).unwrap();
    assert_eq!(owned(cursor.move_to_first()), Ok(None));
    assert_eq!(owned(cursor.move_to_last()), Ok(None));
    assert_eq!(owned(cursor.move_to_next()), Ok(None));
    assert_eq!(owned(cursor.move_to_prev()), Ok(None));
    assert_eq!(owned(cursor.move_to_key_at_or_after(&[1])), Ok(None));
}

#[test]
fn cursor_needs_a_known_table() {
    let (_env, mut wtxn, _db) = three_keys();
    assert!(matches!(
        RoCursor::new(&wtxn, 5),
        Err(Error::Engine(EngineError::UnknownTable))
    ));
    assert!(matches!(
        RwCursor::new(&mut wtxn, 5),
        Err(Error::Engine(EngineError::UnknownTable))
    ));
}

#[test]
fn deleting_leaves_the_cursor_between_the_neighbours() {
    let (_env, mut wtxn, db) = three_keys();
    {
        let mut cursor = RwCursor::new(&mut wtxn, 0).unwrap();
        assert_eq!(cursor.delete_current(), Ok(false));
        assert_eq!(owned(cursor.move_to_key_at_or_after(&[0, 20])), entry(20, 2));
        assert_eq!(cursor.delete_current(), Ok(true));
        assert_eq!(cursor.pos, Position::Gap(1));
        assert_eq!(cursor.delete_current(), Ok(false));
        assert_eq!(cursor.replace_current(&[9]), Ok(false));
        assert_eq!(owned(Ok(cursor.current())), Ok(None));
        assert_eq!(owned(cursor.move_to_next()), entry(30, 3));
        assert_eq!(owned(cursor.move_to_prev()), entry(10, 1));
        assert_eq!(cursor.delete_current(), Ok(true));
        assert_eq!(owned(cursor.move_to_prev()), Ok(None));
        assert_eq!(owned(cursor.move_to_next()), entry(30, 3));
    }
    assert_eq!(db.len(&wtxn), Ok(1));
    assert_eq!(db.get::<BEU16, ByteSlice>(&wtxn, &30), Ok(Some(vec![3])));
}

#[test]
fn replacing_keeps_the_cursor_in_place() {
    let (_env, mut wtxn, db) = three_keys();
    {
        let mut cursor = RwCursor::new(&mut wtxn, 0).unwrap();
        assert_eq!(cursor.replace_current(&[9]), Ok(false));
        assert_eq!(owned(cursor.move_to_first()), entry(10, 1));
        assert_eq!(cursor.replace_current(&[7, 7]), Ok(true));
        assert_eq!(cursor.pos, Position::On(0));
        assert_eq!(
            owned(Ok(cursor.current())),
            Ok(Some((vec![0, 10], vec![7, 7])))
        );
        assert_eq!(owned(cursor.move_to_last()), entry(30, 3));
        assert_eq!(owned(cursor.move_to_first()), Ok(Some((vec![0, 10], vec![7, 7]))));
    }
    assert_eq!(db.get::<BEU16, ByteSlice>(&wtxn, &10), Ok(Some(vec![7, 7])));
    assert_eq!(db.len(&wtxn), Ok(3));
}

#[test]
fn engine_reads_and_writes_raw_bytes() {
    let env = Env::new(9, 1);
    assert_eq!(env.ident(), 9);
    let mut wtxn = env.write_txn();
    assert_eq!(wtxn.create_table(), Ok(0));
    assert_eq!(wtxn.create_table(), Err(EngineError::TablesFull));
    assert_eq!(wtxn.ident(), 9);
    assert!(wtxn.knows(0));
    assert!(!wtxn.knows(1));
    assert_eq!(wtxn.raw_put(0, &[2], &[20], WriteMode::Upsert), Ok(()));
    assert_eq!(wtxn.raw_put(0, &[1], &[10], WriteMode::Upsert), Ok(()));
    assert_eq!(wtxn.raw_put(0, &[3], &[30], WriteMode::Append), Ok(()));
    assert_eq!(wtxn.raw_put(0, &[3], &[31], WriteMode::Append), Err(Error::KeyOrderViolation));
    assert_eq!(wtxn.raw_put(0, &[0], &[0], WriteMode::Append), Err(Error::KeyOrderViolation));
    assert_eq!(
        wtxn.raw_put(1, &[0], &[0], WriteMode::Upsert),
        Err(Error::Engine(EngineError::UnknownTable))
    );
    assert_eq!(wtxn.raw_stat(0), Ok(3));
    assert_eq!(wtxn.raw_stat(1), Err(EngineError::UnknownTable));
    assert_eq!(wtxn.raw_get(0, &[2]), Ok(Some(&[20u8][..])));
    assert_eq!(wtxn.raw_get(0, &[4]), Ok(None));
    assert_eq!(wtxn.raw_get(1, &[4]), Err(EngineError::UnknownTable));
    assert_eq!(wtxn.raw_delete(0, &[2]), Ok(true));
    assert_eq!(wtxn.raw_delete(0, &[2]), Ok(false));
    assert_eq!(wtxn.raw_delete(1, &[2]), Err(EngineError::UnknownTable));
    wtxn.set_value_at(0, 0, &[11]);
    assert_eq!(wtxn.raw_get(0, &[1]), Ok(Some(&[11u8][..])));
    wtxn.remove_at(0, 0);
    assert_eq!(wtxn.raw_get(0, &[1]), Ok(None));
    assert_eq!(wtxn.table_ref(0).len(), 1);
    assert_eq!(wtxn.drop_table_contents(0), Ok(()));
    assert_eq!(wtxn.drop_table_contents(1), Err(EngineError::UnknownTable));
    assert_eq!(wtxn.raw_stat(0), Ok(0));
    let space = wtxn.raw_reserve(0, &[8], 3).unwrap();
    assert_eq!(space.remaining(), 3);
    assert_eq!(wtxn.raw_get(0, &[8]), Ok(Some(&[0u8, 0, 0][..])));
    assert!(matches!(
        wtxn.raw_reserve(1, &[8], 3),
        Err(Error::Engine(EngineError::UnknownTable))
    ));
    assert_eq!(wtxn.raw_delete(0, &[8]), Ok(true));
    let db = PolyDatabase::new(9, 0);
    assert_eq!(db.put::<BEU16, Unit>(&mut wtxn, &1, &()), Ok(()));
    assert_eq!(wtxn.as_ro().raw_stat(0), Ok(1));
}
