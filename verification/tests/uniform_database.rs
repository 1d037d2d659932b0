use heed::bounds::KeyRange;
use heed::codec::{Str, BEI32};
use heed::env::{Env, RwTxn};
use heed::error::{CodecError, EngineError, Error};
use heed::reserved::ReservedSpace;
use heed::uniform::Database;

fn numbers() -> (Env, RwTxn, Database<BEI32, Str>) {
    let env = Env::new(5, 4);
    let mut wtxn = env.write_txn();
    let db = wtxn.create_poly_database().unwrap().as_uniform::<BEI32, Str>();
    db.put(&mut wtxn, &42, "i-am-forty-two").unwrap();
    db.put(&mut wtxn, &27, "i-am-twenty-seven").unwrap();
    db.put(&mut wtxn, &13, "i-am-thirteen").unwrap();
    db.put(&mut wtxn, &521, "i-am-five-hundred-and-twenty-one").unwrap();
    (env, wtxn, db)
}

fn some(k: i32, v: &str) -> Option<(i32, String)> {
    Some((k, v.to_string()))
}

#[test]
fn uniform_point_queries() {
    let (_env, wtxn, db) = numbers();
    assert_eq!(db.get(&wtxn, &27), Ok(Some("i-am-twenty-seven".to_string())));
    assert_eq!(db.get(&wtxn, &28), Ok(None));
    assert_eq!(db.get_lower_than(&wtxn, &27), Ok(some(13, "i-am-thirteen")));
    assert_eq!(db.get_lower_than_or_equal_to(&wtxn, &27), Ok(some(27, "i-am-twenty-seven")));
    assert_eq!(db.get_greater_than(&wtxn, &27), Ok(some(42, "i-am-forty-two")));
    assert_eq!(db.get_greater_than_or_equal_to(&wtxn, &28), Ok(some(42, "i-am-forty-two")));
    assert_eq!(db.first(&wtxn), Ok(some(13, "i-am-thirteen")));
    assert_eq!(db.last(&wtxn), Ok(some(521, "i-am-five-hundred-and-twenty-one")));
    assert_eq!(db.len(&wtxn), Ok(4));
    assert_eq!(db.is_empty(&wtxn), Ok(false));
}

#[test]
fn uniform_walks() {
    let (_env, mut wtxn, db) = numbers();
    let collect = |mut next: Box<dyn FnMut() -> Option<Result<(i32, String), Error>> + '_>| {
        let mut out = Vec::new();
        while let Some(step) = next() {
            out.push(step.unwrap().0);
        }
        out
    };
    let mut it = db.iter(&wtxn).unwrap();
    assert_eq!(collect(Box::new(move || it.next())), vec![13, 27, 42, 521]);
    let mut it = db.rev_iter(&wtxn).unwrap();
    assert_eq!(collect(Box::new(move || it.next())), vec![521, 42, 27, 13]);
    let range = KeyRange::half_open(&13, &42);
    let mut it = db.range(&wtxn, &range).unwrap();
    assert_eq!(collect(Box::new(move || it.next())), vec![13, 27]);
    let mut it = db.rev_range(&wtxn, &range).unwrap();
    assert_eq!(collect(Box::new(move || it.next())), vec![27, 13]);
    let mut it = db.prefix_iter(&wtxn, &27).unwrap();
    assert_eq!(collect(Box::new(move || it.next())), vec![27]);
    let mut it = db.rev_prefix_iter(&wtxn, &27).unwrap();
    assert_eq!(collect(Box::new(move || it.next())), vec![27]);
    let mut it = db.iter_mut(&mut wtxn).unwrap();
    assert_eq!(it.next(), Some(Ok((13, "i-am-thirteen".to_string()))));
    assert_eq!(it.delete_current(), Ok(true));
    drop(it);
    let mut it = db.rev_iter_mut(&mut wtxn).unwrap();
    assert_eq!(it.next(), Some(Ok((521, "i-am-five-hundred-and-twenty-one".to_string()))));
    assert_eq!(it.replace_current("big"), Ok(true));
    drop(it);
    let mut it = db.range_mut(&mut wtxn, &range).unwrap();
    assert_eq!(it.next(), Some(Ok((27, "i-am-twenty-seven".to_string()))));
    assert_eq!(it.next(), None);
    drop(it);
    let mut it = db.rev_range_mut(&mut wtxn, &range).unwrap();
    assert_eq!(it.next(), Some(Ok((27, "i-am-twenty-seven".to_string()))));
    drop(it);
    let mut it = db.prefix_iter_mut(&mut wtxn, &42).unwrap();
    assert_eq!(it.next(), Some(Ok((42, "i-am-forty-two".to_string()))));
    drop(it);
    let mut it = db.rev_prefix_iter_mut(&mut wtxn, &42).unwrap();
    assert_eq!(it.next(), Some(Ok((42, "i-am-forty-two".to_string()))));
    assert_eq!(it.next(), None);
    drop(it);
    assert_eq!(db.get(&wtxn, &521), Ok(Some("big".to_string())));
    assert_eq!(db.get(&wtxn, &13), Ok(None));
}

#[test]
fn uniform_writes() {
    let (_env, mut wtxn, db) = numbers();
    assert_eq!(db.append(&mut wtxn, &600, "six hundred"), Ok(()));
    assert_eq!(db.append(&mut wtxn, &1, "one"), Err(Error::KeyOrderViolation));
    assert_eq!(db.delete(&mut wtxn, &600), Ok(true));
    assert_eq!(db.delete(&mut wtxn, &600), Ok(false));
    let r = db.put_reserved(&mut wtxn, &7, 3, |space: &mut ReservedSpace| space.write_all(b"abc"));
    assert_eq!(r, Ok(()));
    assert_eq!(db.get(&wtxn, &7), Ok(Some("abc".to_string())));
    let range = KeyRange::inclusive(&7, &27);
    assert_eq!(db.delete_range(&mut wtxn, &range), Ok(3));
    assert_eq!(db.len(&wtxn), Ok(2));
    assert_eq!(db.clear(&mut wtxn), Ok(()));
    assert_eq!(db.is_empty(&wtxn), Ok(true));
}

#[test]
fn uniform_and_polymorphic_handles_share_the_table() {
    let (_env, mut wtxn, db) = numbers();
    let poly = db.as_polymorph();
    assert_eq!(poly.len(&wtxn), Ok(4));
    poly.put::<BEI32, Str>(&mut wtxn, &1, "one").unwrap();
    assert_eq!(db.first(&wtxn), Ok(some(1, "one")));
    let other = Database::<Str, BEI32>::new(5, 0);
    assert_eq!(other.first(&wtxn), Err(Error::Decoding(CodecError::InvalidLength)));
    let stray = Database::<BEI32, Str>::new(5, 3);
    assert_eq!(stray.len(&wtxn), Err(Error::Engine(EngineError::UnknownTable)));
}
