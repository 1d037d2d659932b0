//! Typed handles on a table: the polymorphic handle, which takes its codecs
//! call by call.

use crate::bounds::{
    encode_bound, encoded_bound, prefix_bounds, prefix_entries, range_entries, upper_index,
    lower_index, Bound, KeyRange,
};
use crate::bytes::{compare, KeyOrder};
use crate::codec::{BytesDecode, BytesEncode, DecodeIgnore};
use crate::cursor::{RoCursor, RwCursor};
use crate::env::{RoTxn, RwTxn, WriteMode};
use crate::error::{EngineError, Error};
use crate::reserved::{zeros, ReservedSpace};
use crate::uniform::Database;
use crate::iter::{
    decode_entry, decoded, RoIter, RoPrefix, RoRange, RoRevIter, RoRevPrefix, RoRevRange, RwIter,
    RwPrefix, RwRange, RwRevIter, RwRevPrefix, RwRevRange,
};
use crate::table::{
    appendable, count_below, lemma_count_below_inclusive, lemma_count_below_splits, put_entry,
    remove_entry, to_map, RawEntry,
};
use vstd::prelude::*;

verus! {

/// The value stored under `k`, if any.
pub open spec fn lookup(s: Seq<RawEntry>, k: Seq<u8>) -> Option<Seq<u8>> {
    if to_map(s).contains_key(k) {
        Some(to_map(s)[k])
    } else {
        None
    }
}

/// The entry at index `i`, if there is one.
pub open spec fn entry_at(s: Seq<RawEntry>, i: int) -> Option<RawEntry> {
    if 0 <= i < s.len() {
        Some(s[i])
    } else {
        None
    }
}

/// The entry with the greatest key below `k`; with `inclusive`, at or below.
pub open spec fn greatest_below(s: Seq<RawEntry>, k: Seq<u8>, inclusive: bool) -> Option<RawEntry> {
    entry_at(s, count_below(s, k, inclusive) - 1)
}

/// The entry with the least key above `k`; with `inclusive`, at or above.
pub open spec fn least_above(s: Seq<RawEntry>, k: Seq<u8>, inclusive: bool) -> Option<RawEntry> {
    entry_at(s, count_below(s, k, !inclusive) as int)
}

/// `r` is the failure `e`.
pub open spec fn fails_with<T>(r: Result<T, Error>, e: Error) -> bool {
    r matches Err(x) && x == e
}

/// `r` is what decoding the raw value `value` with `DC` gives, absent when
/// the value is.
pub open spec fn typed_value<DC: BytesDecode>(
    value: Option<Seq<u8>>,
    r: Result<Option<DC::DItem>, Error>,
) -> bool {
    match value {
        None => r matches Ok(None),
        Some(bytes) => match DC::decode_spec(bytes) {
            Ok(v) => (r matches Ok(Some(x)) && x@ == v),
            Err(e) => fails_with(r, Error::Decoding(e)),
        },
    }
}

/// `r` is what decoding the raw entry `entry` with `KC` and `DC` gives,
/// absent when the entry is.
pub open spec fn typed_entry<KC: BytesDecode, DC: BytesDecode>(
    entry: Option<RawEntry>,
    r: Result<Option<(KC::DItem, DC::DItem)>, Error>,
) -> bool {
    match entry {
        None => r matches Ok(None),
        Some(raw) => match r {
            Ok(Some(pair)) => decoded::<KC, DC>(raw, Ok(pair)),
            Ok(None) => false,
            Err(e) => decoded::<KC, DC>(raw, Err(e)),
        },
    }
}

/// What `get` returns: the key's encoding error, else the engine's refusal
/// of an unknown table, else the value stored under the encoded key,
/// decoded, or nothing when the key is absent.
pub open spec fn get_spec<KC: BytesEncode, DC: BytesDecode>(
    txn: &RoTxn,
    dbi: u32,
    key: <KC::EItem as View>::V,
    r: Result<Option<DC::DItem>, Error>,
) -> bool {
    match KC::encode_spec(key) {
        Err(e) => fails_with(r, Error::Encoding(e)),
        Ok(kb) => if txn.has_table(dbi) {
            typed_value::<DC>(lookup(txn.table(dbi), kb), r)
        } else {
            fails_with(r, Error::Engine(EngineError::UnknownTable))
        },
    }
}

/// What a neighbour query returns: the engine's refusal of an unknown
/// table, else the key's encoding error, else the chosen entry, decoded.
pub open spec fn neighbour<KC: BytesEncode + BytesDecode, DC: BytesDecode>(
    txn: &RoTxn,
    dbi: u32,
    key: <KC::EItem as View>::V,
    greater: bool,
    inclusive: bool,
    r: Result<Option<(KC::DItem, DC::DItem)>, Error>,
) -> bool {
    if !txn.has_table(dbi) {
        fails_with(r, Error::Engine(EngineError::UnknownTable))
    } else {
        match KC::encode_spec(key) {
            Err(e) => fails_with(r, Error::Encoding(e)),
            Ok(kb) => typed_entry::<KC, DC>(
                if greater {
                    least_above(txn.table(dbi), kb, inclusive)
                } else {
                    greatest_below(txn.table(dbi), kb, inclusive)
                },
                r,
            ),
        }
    }
}

/// What encoding both ends of a typed interval gives: the two byte bounds,
/// or the first encoding error, the start's before the end's.
pub open spec fn encoded_range<KC: BytesEncode>(
    start: Bound<<KC::EItem as View>::V>,
    end: Bound<<KC::EItem as View>::V>,
) -> Result<(Bound<Seq<u8>>, Bound<Seq<u8>>), Error> {
    match encoded_bound::<KC>(start) {
        Err(e) => Err(e),
        Ok(lo) => match encoded_bound::<KC>(end) {
            Err(e) => Err(e),
            Ok(hi) => Ok((lo, hi)),
        },
    }
}

/// `it` is a fresh forward walk over table `dbi` of `txn` that will yield
/// `pending`.
pub open spec fn ro_walk<KC, DC>(
    it: &RoRange<'_, KC, DC>,
    txn: &RoTxn,
    dbi: u32,
    pending: Seq<RawEntry>,
) -> bool {
    &&& it.wf()
    &&& it.entries() == txn.table(dbi)
    &&& it.pending() == pending
}

/// `it` is a fresh backward walk over table `dbi` of `txn` that will yield
/// `pending`.
pub open spec fn ro_rev_walk<KC, DC>(
    it: &RoRevRange<'_, KC, DC>,
    txn: &RoTxn,
    dbi: u32,
    pending: Seq<RawEntry>,
) -> bool {
    &&& it.wf()
    &&& it.entries() == txn.table(dbi)
    &&& it.pending() == pending
}

/// `it` is a fresh forward walk that holds the transaction as `txn` left
/// it, over its table `dbi`, and will yield `pending`.
pub open spec fn rw_walk<KC, DC>(
    it: &RwRange<'_, KC, DC>,
    txn: &RwTxn,
    dbi: u32,
    pending: Seq<RawEntry>,
) -> bool {
    &&& it.wf()
    &&& *it.cursor.txn == *txn
    &&& it.cursor.dbi == dbi
    &&& it.pending() == pending
    &&& it.current() is None
}

/// `it` is a fresh backward walk that holds the transaction as `txn` left
/// it, over its table `dbi`, and will yield `pending`.
pub open spec fn rw_rev_walk<KC, DC>(
    it: &RwRevRange<'_, KC, DC>,
    txn: &RwTxn,
    dbi: u32,
    pending: Seq<RawEntry>,
) -> bool {
    &&& it.wf()
    &&& *it.cursor.txn == *txn
    &&& it.cursor.dbi == dbi
    &&& it.pending() == pending
    &&& it.current() is None
}

/// Encodes both ends of a typed interval with the key codec.
pub fn encode_range<KC: BytesEncode>(range: &KeyRange<'_, KC::EItem>) -> (r: Result<
    (Bound<Vec<u8>>, Bound<Vec<u8>>),
    Error,
>)
    ensures
        match r {
            Ok(b) => encoded_range::<KC>(range.start@, range.end@) == Ok::<
                (Bound<Seq<u8>>, Bound<Seq<u8>>),
                Error,
            >((b.0@, b.1@)),
            Err(e) => encoded_range::<KC>(range.start@, range.end@) == Err::<
                (Bound<Seq<u8>>, Bound<Seq<u8>>),
                Error,
            >(e),
        },
{
    let start = match encode_bound::<KC>(&range.start) {
        Ok(b) => b,
        Err(e) => {
            return Err(e);
        },
    };
    let end = match encode_bound::<KC>(&range.end) {
        Ok(b) => b,
        Err(e) => {
            return Err(e);
        },
    };
    Ok((start, end))
}

/// What `put` does: it refuses a key or a value that does not encode, then
/// an unknown table, and else stores the encoded value under the encoded
/// key, over any value that was there.
pub open spec fn put_spec<KC: BytesEncode, DC: BytesEncode>(
    before: &RwTxn,
    after: &RwTxn,
    dbi: u32,
    key: <KC::EItem as View>::V,
    data: <DC::EItem as View>::V,
    r: Result<(), Error>,
) -> bool {
    match KC::encode_spec(key) {
        Err(e) => fails_with(r, Error::Encoding(e)) && after.same_as(before),
        Ok(kb) => match DC::encode_spec(data) {
            Err(e) => fails_with(r, Error::Encoding(e)) && after.same_as(before),
            Ok(vb) => if before.has_table(dbi) {
                r is Ok && after.changed_from(before, dbi, put_entry(before.table(dbi), kb, vb))
            } else {
                fails_with(r, Error::Engine(EngineError::UnknownTable)) && after.same_as(before)
            },
        },
    }
}

/// What `append` does: as `put`, but a key that is not above every key of
/// the table is refused and the table left as it was.
pub open spec fn append_spec<KC: BytesEncode, DC: BytesEncode>(
    before: &RwTxn,
    after: &RwTxn,
    dbi: u32,
    key: <KC::EItem as View>::V,
    data: <DC::EItem as View>::V,
    r: Result<(), Error>,
) -> bool {
    match KC::encode_spec(key) {
        Err(e) => fails_with(r, Error::Encoding(e)) && after.same_as(before),
        Ok(kb) => match DC::encode_spec(data) {
            Err(e) => fails_with(r, Error::Encoding(e)) && after.same_as(before),
            Ok(vb) => if !before.has_table(dbi) {
                fails_with(r, Error::Engine(EngineError::UnknownTable)) && after.same_as(before)
            } else if appendable(before.table(dbi), kb) {
                r is Ok && after.changed_from(before, dbi, before.table(dbi).push((kb, vb)))
            } else {
                fails_with(r, Error::KeyOrderViolation) && after.same_as(before)
            },
        },
    }
}

/// What `delete` does: it removes the entry under the encoded key and
/// tells whether there was one.
pub open spec fn delete_spec<KC: BytesEncode>(
    before: &RwTxn,
    after: &RwTxn,
    dbi: u32,
    key: <KC::EItem as View>::V,
    r: Result<bool, Error>,
) -> bool {
    match KC::encode_spec(key) {
        Err(e) => fails_with(r, Error::Encoding(e)) && after.same_as(before),
        Ok(kb) => if before.has_table(dbi) {
            r == Ok::<bool, Error>(lookup(before.table(dbi), kb) is Some) && after.changed_from(
                before,
                dbi,
                remove_entry(before.table(dbi), kb),
            )
        } else {
            fails_with(r, Error::Engine(EngineError::UnknownTable)) && after.same_as(before)
        },
    }
}

/// What `clear` does: it empties the table.
pub open spec fn clear_spec(before: &RwTxn, after: &RwTxn, dbi: u32, r: Result<(), Error>) -> bool {
    if before.has_table(dbi) {
        r is Ok && after.changed_from(before, dbi, Seq::<RawEntry>::empty())
    } else {
        fails_with(r, Error::Engine(EngineError::UnknownTable)) && after.same_as(before)
    }
}

/// Appending above every key is putting.
pub proof fn lemma_append_is_put(s: Seq<RawEntry>, kb: Seq<u8>, vb: Seq<u8>)
    requires
        crate::table::sorted(s),
        appendable(s, kb),
    ensures
        put_entry(s, kb, vb) == s.push((kb, vb)),
{
    assert forall|j: int| 0 <= j < s.len() implies crate::table::below(
        #[trigger] s[j].0,
        kb,
        false,
    ) by {
        if j < s.len() - 1 {
            assert(crate::bytes::lex_lt(s[j].0, s[s.len() - 1].0));
            crate::bytes::lemma_lex_transitive(s[j].0, s.last().0, kb);
        }
    }
    crate::table::lemma_count_below_unique(s, kb, false, s.len() as int);
    lemma_count_below_inclusive(s, kb);
    assert(s.insert(s.len() as int, (kb, vb)) =~= s.push((kb, vb)));
}

/// The entries of `s` whose keys lie outside the interval, in key order.
pub open spec fn without_range(s: Seq<RawEntry>, lo: Bound<Seq<u8>>, hi: Bound<Seq<u8>>) -> Seq<
    RawEntry,
> {
    let a = lower_index(s, lo);
    let b = upper_index(s, hi);
    if 0 <= a <= b <= s.len() {
        s.subrange(0, a) + s.subrange(b, s.len() as int)
    } else {
        s
    }
}

/// How many entries at the head of `entries` have keys that decode under
/// `KC`: the index of the first key that does not decode, or the number of
/// entries when every key does.
pub open spec fn decodable_run<KC: BytesDecode>(entries: Seq<RawEntry>) -> nat
    decreases entries.len(),
{
    if entries.len() == 0 || KC::decode_spec(entries[0].0) is Err {
        0
    } else {
        1 + decodable_run::<KC>(entries.skip(1))
    }
}

/// What `decodable_run` counts: every key before it decodes, and it is the
/// number of entries or the index of a key that does not decode.
pub proof fn lemma_decodable_run_splits<KC: BytesDecode>(entries: Seq<RawEntry>)
    ensures
        decodable_run::<KC>(entries) <= entries.len(),
        forall|j: int|
            0 <= j < decodable_run::<KC>(entries) ==> KC::decode_spec(
                #[trigger] entries[j].0,
            ) is Ok,
        decodable_run::<KC>(entries) < entries.len() ==> KC::decode_spec(
            entries[decodable_run::<KC>(entries) as int].0,
        ) is Err,
    decreases entries.len(),
{
    if entries.len() > 0 && KC::decode_spec(entries[0].0) is Ok {
        let rest = entries.skip(1);
        lemma_decodable_run_splits::<KC>(rest);
        let n = decodable_run::<KC>(entries) as int;
        assert forall|j: int| 0 <= j < n implies KC::decode_spec(
            #[trigger] entries[j].0,
        ) is Ok by {
            if j > 0 {
                assert(rest[j - 1] == entries[j]);
            }
        }
        if n < entries.len() {
            assert(rest[n - 1] == entries[n]);
        }
    }
}

/// `decodable_run` is the one index before which every key decodes and at
/// which the entries end or a key does not decode.
pub proof fn lemma_decodable_run<KC: BytesDecode>(entries: Seq<RawEntry>, n: int)
    requires
        0 <= n <= entries.len(),
        forall|j: int| 0 <= j < n ==> KC::decode_spec(#[trigger] entries[j].0) is Ok,
        n < entries.len() ==> KC::decode_spec(entries[n].0) is Err,
    ensures
        decodable_run::<KC>(entries) == n,
    decreases n,
{
    if n > 0 {
        let rest = entries.skip(1);
        assert(KC::decode_spec(entries[0].0) is Ok);
        assert forall|j: int| 0 <= j < n - 1 implies KC::decode_spec(
            #[trigger] rest[j].0,
        ) is Ok by {
            assert(rest[j] == entries[j + 1]);
        }
        if n - 1 < rest.len() {
            assert(rest[n - 1] == entries[n]);
        }
        lemma_decodable_run::<KC>(rest, n - 1);
    }
}

/// What `delete_range` does. It walks the entries whose keys lie in the
/// interval, in key order, decoding each key and deleting each entry as it
/// comes. When every key decodes, it removes them all and returns how many
/// they were. When one does not, it stops there with that key's decoding
/// error: the entries of the interval before that key are gone, that entry
/// and those after it stay.
pub open spec fn delete_range_spec<KC: BytesEncode + BytesDecode>(
    before: &RwTxn,
    after: &RwTxn,
    dbi: u32,
    start: Bound<<KC::EItem as View>::V>,
    end: Bound<<KC::EItem as View>::V>,
    r: Result<usize, Error>,
) -> bool {
    match encoded_range::<KC>(start, end) {
        Err(e) => fails_with(r, e) && after.same_as(before),
        Ok(b) => if before.has_table(dbi) {
            let s = before.table(dbi);
            let inside = range_entries(s, b.0, b.1);
            let n = decodable_run::<KC>(inside);
            if n == inside.len() {
                r == Ok::<usize, Error>(n as usize) && after.changed_from(
                    before,
                    dbi,
                    without_range(s, b.0, b.1),
                )
            } else {
                match KC::decode_spec(inside[n as int].0) {
                    Err(e) => fails_with(r, Error::Decoding(e)) && after.changed_from(
                        before,
                        dbi,
                        kept(s, lower_index(s, b.0), n as int),
                    ),
                    Ok(_) => false,
                }
            }
        } else {
            fails_with(r, Error::Engine(EngineError::UnknownTable)) && after.same_as(before)
        },
    }
}

/// The entries of `s` once the first `count` entries from index `a` on are
/// gone.
pub open spec fn kept(s: Seq<RawEntry>, a: int, count: int) -> Seq<RawEntry> {
    s.subrange(0, a) + s.subrange(a + count, s.len() as int)
}

/// Deleting the next entry of the interval from what has been kept so far.
proof fn lemma_kept_step(s: Seq<RawEntry>, a: int, count: int)
    requires
        crate::table::sorted(s),
        crate::table::sorted(kept(s, a, count)),
        0 <= a,
        0 <= count,
        a + count < s.len(),
    ensures
        remove_entry(kept(s, a, count), s[a + count].0) == kept(s, a, count + 1),
{
    let t = kept(s, a, count);
    assert(t[a] == s[a + count]);
    crate::bounds::lemma_count_below_own_key(t, a);
    assert(t.remove(a) =~= kept(s, a, count + 1));
}

/// How a reserved write ends: with the writer's own failure, with success
/// when the writer filled the reserved space exactly, and else with
/// `ReservedWriteIncomplete`.
pub open spec fn reserved_outcome(
    space: ReservedSpace,
    data_size: usize,
    written: Result<(), Error>,
) -> Result<(), Error> {
    match written {
        Err(e) => Err(e),
        Ok(_) => if space.size() == data_size && space.filled() == data_size {
            Ok(())
        } else {
            Err(Error::ReservedWriteIncomplete)
        },
    }
}

/// What the reserved region holds once the writer is done: what the writer
/// left in the space, or the zeros that it was reserved with when the writer
/// handed back a space of another size.
pub open spec fn reserved_bytes(space: ReservedSpace, data_size: usize) -> Seq<u8> {
    if space.size() == data_size {
        space.bytes()
    } else {
        zeros(data_size as nat)
    }
}

/// What a reserved write does once the key is encoded and the table
/// known: whatever space and result the writer handed back, the reserved
/// bytes are stored under the key and the write ends as they call for.
pub open spec fn reserved_spec(
    before: &RwTxn,
    after: &RwTxn,
    dbi: u32,
    kb: Seq<u8>,
    data_size: usize,
    space: ReservedSpace,
    written: Result<(), Error>,
    r: Result<(), Error>,
) -> bool {
    &&& r == reserved_outcome(space, data_size, written)
    &&& after.changed_from(
        before,
        dbi,
        put_entry(before.table(dbi), kb, reserved_bytes(space, data_size)),
    )
}

/// Putting twice under one key is putting the second value.
pub proof fn lemma_put_twice(s: Seq<RawEntry>, k: Seq<u8>, v1: Seq<u8>, v2: Seq<u8>)
    requires
        crate::table::sorted(s),
    ensures
        put_entry(put_entry(s, k, v1), k, v2) == put_entry(s, k, v2),
{
    crate::table::lemma_put_entry(s, k, v1);
    crate::table::lemma_put_entry(put_entry(s, k, v1), k, v2);
    crate::table::lemma_put_entry(s, k, v2);
    assert(to_map(s).insert(k, v1).insert(k, v2) =~= to_map(s).insert(k, v2));
    crate::table::lemma_sorted_unique(put_entry(put_entry(s, k, v1), k, v2), put_entry(s, k, v2));
}

/// Decodes what a cursor movement returned.
fn decode_found<KC: BytesDecode, DC: BytesDecode>(
    found: Result<Option<(&[u8], &[u8])>, Error>,
) -> (r: Result<Option<(KC::DItem, DC::DItem)>, Error>)
    ensures
        match found {
            Ok(o) => typed_entry::<KC, DC>(crate::cursor::raw_view(o), r),
            Err(e) => fails_with(r, e),
        },
{
    match found {
        Ok(Some((key, data))) => match decode_entry::<KC, DC>(key, data) {
            Ok(pair) => Ok(Some(pair)),
            Err(e) => Err(e),
        },
        Ok(None) => Ok(None),
        Err(e) => Err(e),
    }
}

/// A polymorphic handle on one table: it names the table and the
/// environment, and takes the codecs with each call.
#[derive(Clone, Copy, Debug)]
pub struct PolyDatabase {
    env_ident: usize,
    dbi: u32,
}

impl PolyDatabase {
    /// Identity of the environment that the table belongs to.
    pub closed spec fn env_ident(&self) -> usize {
        self.env_ident
    }

    /// The number that names the table in its environment.
    pub closed spec fn dbi(&self) -> u32 {
        self.dbi
    }

    /// The handle on table `dbi` of the environment `env_ident`.
    pub fn new(env_ident: usize, dbi: u32) -> (db: PolyDatabase)
        ensures
            db.env_ident() == env_ident,
            db.dbi() == dbi,
    {
        PolyDatabase { env_ident, dbi }
    }

    /// Tells whether `txn` belongs to the environment of this table. Every
    /// operation asks for it.
    pub fn same_env(&self, txn: &RoTxn) -> (r: bool)
        ensures
            r == (self.env_ident() == txn.env_ident()),
    {
        self.env_ident == txn.ident()
    }

    /// The value stored under `key`.
    pub fn get<KC: BytesEncode, DC: BytesDecode>(&self, txn: &RoTxn, key: &KC::EItem) -> (r: Result<
        Option<DC::DItem>,
        Error,
    >)
        requires
            txn.wf(),
            self.env_ident() == txn.env_ident(),
        ensures
            get_spec::<KC, DC>(txn, self.dbi(), key@, r),
    {
        let key_bytes = match KC::bytes_encode(key) {
            Ok(b) => b,
            Err(e) => {
                return Err(Error::Encoding(e));
            },
        };
        match txn.raw_get(self.dbi, key_bytes.as_slice()) {
            Ok(Some(data)) => match DC::bytes_decode(data) {
                Ok(v) => Ok(Some(v)),
                Err(e) => Err(Error::Decoding(e)),
            },
            Ok(None) => Ok(None),
            Err(e) => Err(Error::Engine(e)),
        }
    }

    /// The entry with the greatest key strictly below `key`.
    pub fn get_lower_than<KC: BytesEncode + BytesDecode, DC: BytesDecode>(
        &self,
        txn: &RoTxn,
        key: &KC::EItem,
    ) -> (r: Result<Option<(KC::DItem, DC::DItem)>, Error>)
        requires
            txn.wf(),
            self.env_ident() == txn.env_ident(),
        ensures
            neighbour::<KC, DC>(txn, self.dbi(), key@, false, false, r),
    {
        let mut cursor = match RoCursor::new(txn, self.dbi) {
            Ok(c) => c,
            Err(e) => {
                return Err(e);
            },
        };
        let key_bytes = match KC::bytes_encode(key) {
            Ok(b) => b,
            Err(e) => {
                return Err(Error::Encoding(e));
            },
        };
        proof {
            lemma_count_below_splits(txn.table(self.dbi), key_bytes@, false);
        }
        match cursor.move_to_key_at_or_after(key_bytes.as_slice()) {
            Ok(_) => decode_found::<KC, DC>(cursor.move_to_prev()),
            Err(e) => Err(e),
        }
    }

    /// The entry with the greatest key at or below `key`.
    pub fn get_lower_than_or_equal_to<KC: BytesEncode + BytesDecode, DC: BytesDecode>(
        &self,
        txn: &RoTxn,
        key: &KC::EItem,
    ) -> (r: Result<Option<(KC::DItem, DC::DItem)>, Error>)
        requires
            txn.wf(),
            self.env_ident() == txn.env_ident(),
        ensures
            neighbour::<KC, DC>(txn, self.dbi(), key@, false, true, r),
    {
        let mut cursor = match RoCursor::new(txn, self.dbi) {
            Ok(c) => c,
            Err(e) => {
                return Err(e);
            },
        };
        let key_bytes = match KC::bytes_encode(key) {
            Ok(b) => b,
            Err(e) => {
                return Err(Error::Encoding(e));
            },
        };
        proof {
            lemma_count_below_inclusive(txn.table(self.dbi), key_bytes@);
            lemma_count_below_splits(txn.table(self.dbi), key_bytes@, false);
        }
        let landed = cursor.move_to_key_at_or_after(key_bytes.as_slice());
        let exact = match landed {
            Ok(Some((k, _))) => match compare(k, key_bytes.as_slice()) {
                KeyOrder::Equal => true,
                _ => false,
            },
            _ => false,
        };
        proof {
            if let Ok(Some(e)) = landed {
                if !exact && e.0@ == key_bytes@ {
                    crate::bytes::lemma_lex_irreflexive(key_bytes@);
                }
            }
        }
        let result = if exact {
            landed
        } else {
            cursor.move_to_prev()
        };
        decode_found::<KC, DC>(result)
    }

    /// The entry with the least key strictly above `key`.
    pub fn get_greater_than<KC: BytesEncode + BytesDecode, DC: BytesDecode>(
        &self,
        txn: &RoTxn,
        key: &KC::EItem,
    ) -> (r: Result<Option<(KC::DItem, DC::DItem)>, Error>)
        requires
            txn.wf(),
            self.env_ident() == txn.env_ident(),
        ensures
            neighbour::<KC, DC>(txn, self.dbi(), key@, true, false, r),
    {
        let mut cursor = match RoCursor::new(txn, self.dbi) {
            Ok(c) => c,
            Err(e) => {
                return Err(e);
            },
        };
        let key_bytes = match KC::bytes_encode(key) {
            Ok(b) => b,
            Err(e) => {
                return Err(Error::Encoding(e));
            },
        };
        proof {
            lemma_count_below_inclusive(txn.table(self.dbi), key_bytes@);
        }
        let landed = cursor.move_to_key_at_or_after(key_bytes.as_slice());
        let above = match landed {
            Ok(Some((k, _))) => match compare(k, key_bytes.as_slice()) {
                KeyOrder::Greater => true,
                _ => false,
            },
            _ => false,
        };
        proof {
            if let Ok(Some(e)) = landed {
                if above {
                    crate::bytes::lemma_lex_asymmetric(key_bytes@, e.0@);
                } else {
                    lemma_count_below_splits(txn.table(self.dbi), key_bytes@, false);
                    crate::bytes::lemma_lex_total(e.0@, key_bytes@);
                }
            }
        }
        let entry = match landed {
            Ok(Some(e)) => if above {
                Ok(Some(e))
            } else {
                cursor.move_to_next()
            },
            other => other,
        };
        decode_found::<KC, DC>(entry)
    }

    /// The entry with the least key at or above `key`.
    pub fn get_greater_than_or_equal_to<KC: BytesEncode + BytesDecode, DC: BytesDecode>(
        &self,
        txn: &RoTxn,
        key: &KC::EItem,
    ) -> (r: Result<Option<(KC::DItem, DC::DItem)>, Error>)
        requires
            txn.wf(),
            self.env_ident() == txn.env_ident(),
        ensures
            neighbour::<KC, DC>(txn, self.dbi(), key@, true, true, r),
    {
        let mut cursor = match RoCursor::new(txn, self.dbi) {
            Ok(c) => c,
            Err(e) => {
                return Err(e);
            },
        };
        let key_bytes = match KC::bytes_encode(key) {
            Ok(b) => b,
            Err(e) => {
                return Err(Error::Encoding(e));
            },
        };
        decode_found::<KC, DC>(cursor.move_to_key_at_or_after(key_bytes.as_slice()))
    }

    /// The entry with the least key of the table.
    pub fn first<KC: BytesDecode, DC: BytesDecode>(&self, txn: &RoTxn) -> (r: Result<
        Option<(KC::DItem, DC::DItem)>,
        Error,
    >)
        requires
            txn.wf(),
            self.env_ident() == txn.env_ident(),
        ensures
            if txn.has_table(self.dbi()) {
                typed_entry::<KC, DC>(entry_at(txn.table(self.dbi()), 0), r)
            } else {
                fails_with(r, Error::Engine(EngineError::UnknownTable))
            },
    {
        let mut cursor = match RoCursor::new(txn, self.dbi) {
            Ok(c) => c,
            Err(e) => {
                return Err(e);
            },
        };
        decode_found::<KC, DC>(cursor.move_to_first())
    }

    /// The entry with the greatest key of the table.
    pub fn last<KC: BytesDecode, DC: BytesDecode>(&self, txn: &RoTxn) -> (r: Result<
        Option<(KC::DItem, DC::DItem)>,
        Error,
    >)
        requires
            txn.wf(),
            self.env_ident() == txn.env_ident(),
        ensures
            if txn.has_table(self.dbi()) {
                typed_entry::<KC, DC>(
                    entry_at(txn.table(self.dbi()), txn.table(self.dbi()).len() - 1),
                    r,
                )
            } else {
                fails_with(r, Error::Engine(EngineError::UnknownTable))
            },
    {
        let mut cursor = match RoCursor::new(txn, self.dbi) {
            Ok(c) => c,
            Err(e) => {
                return Err(e);
            },
        };
        decode_found::<KC, DC>(cursor.move_to_last())
    }

    /// Number of entries of the table.
    pub fn len(&self, txn: &RoTxn) -> (r: Result<u64, Error>)
        requires
            txn.wf(),
            self.env_ident() == txn.env_ident(),
        ensures
            if txn.has_table(self.dbi()) {
                r == Ok::<u64, Error>(txn.table(self.dbi()).len() as u64)
            } else {
                fails_with(r, Error::Engine(EngineError::UnknownTable))
            },
    {
        match txn.raw_stat(self.dbi) {
            Ok(n) => Ok(n),
            Err(e) => Err(Error::Engine(e)),
        }
    }

    /// Tells whether the table holds no entry.
    pub fn is_empty(&self, txn: &RoTxn) -> (r: Result<bool, Error>)
        requires
            txn.wf(),
            self.env_ident() == txn.env_ident(),
        ensures
            if txn.has_table(self.dbi()) {
                r == Ok::<bool, Error>(txn.table(self.dbi()).len() == 0)
            } else {
                fails_with(r, Error::Engine(EngineError::UnknownTable))
            },
    {
        let mut cursor = match RoCursor::new(txn, self.dbi) {
            Ok(c) => c,
            Err(e) => {
                return Err(e);
            },
        };
        match cursor.move_to_first() {
            Ok(Some(_)) => Ok(false),
            Ok(None) => Ok(true),
            Err(e) => Err(e),
        }
    }

    /// A walk over every entry of the table, in increasing key order.
    pub fn iter<'txn, KC, DC>(&self, txn: &'txn RoTxn) -> (r: Result<RoIter<'txn, KC, DC>, Error>)
        requires
            txn.wf(),
            self.env_ident() == txn.env_ident(),
        ensures
            if txn.has_table(self.dbi()) {
                (r matches Ok(it) && ro_walk(&it, txn, self.dbi(), txn.table(self.dbi())))
            } else {
                fails_with(r, Error::Engine(EngineError::UnknownTable))
            },
    {
        let cursor = match RoCursor::new(txn, self.dbi) {
            Ok(c) => c,
            Err(e) => {
                return Err(e);
            },
        };
        proof {
            let s = txn.table(self.dbi);
            assert(range_entries(s, Bound::Unbounded, Bound::Unbounded) =~= s);
        }
        Ok(RoIter::new(cursor, Bound::Unbounded, Bound::Unbounded))
    }

    /// A walk over every entry of the table, in increasing key order, with
    /// leave to replace and delete the entry last yielded.
    pub fn iter_mut<'txn, KC, DC>(
        &self,
        txn: &'txn mut RwTxn,
    ) -> (r: Result<RwIter<'txn, KC, DC>, Error>)
        requires
            old(txn).wf(),
            self.env_ident() == old(txn).env_ident(),
        ensures
            if old(txn).has_table(self.dbi()) {
                (r matches Ok(it) && rw_walk(&it, old(txn), self.dbi(), old(txn).table(self.dbi()))
                    && *final(txn) == *final(it.cursor.txn))
            } else {
                fails_with(r, Error::Engine(EngineError::UnknownTable)) && *final(txn) == *old(txn)
            },
    {
        let cursor = match RwCursor::new(txn, self.dbi) {
            Ok(c) => c,
            Err(e) => {
                return Err(e);
            },
        };
        proof {
            let s = cursor.entries();
            assert(range_entries(s, Bound::Unbounded, Bound::Unbounded) =~= s);
        }
        Ok(RwIter::new(cursor, Bound::Unbounded, Bound::Unbounded))
    }

    /// A walk over every entry of the table, in decreasing key order.
    pub fn rev_iter<'txn, KC, DC>(
        &self,
        txn: &'txn RoTxn,
    ) -> (r: Result<RoRevIter<'txn, KC, DC>, Error>)
        requires
            txn.wf(),
            self.env_ident() == txn.env_ident(),
        ensures
            if txn.has_table(self.dbi()) {
                (r matches Ok(it) && ro_rev_walk(
                    &it,
                    txn,
                    self.dbi(),
                    txn.table(self.dbi()).reverse(),
                ))
            } else {
                fails_with(r, Error::Engine(EngineError::UnknownTable))
            },
    {
        let cursor = match RoCursor::new(txn, self.dbi) {
            Ok(c) => c,
            Err(e) => {
                return Err(e);
            },
        };
        proof {
            let s = txn.table(self.dbi);
            assert(range_entries(s, Bound::Unbounded, Bound::Unbounded) =~= s);
        }
        Ok(RoRevIter::new(cursor, Bound::Unbounded, Bound::Unbounded))
    }

    /// A walk over every entry of the table, in decreasing key order, with
    /// leave to replace and delete the entry last yielded.
    pub fn rev_iter_mut<'txn, KC, DC>(
        &self,
        txn: &'txn mut RwTxn,
    ) -> (r: Result<RwRevIter<'txn, KC, DC>, Error>)
        requires
            old(txn).wf(),
            self.env_ident() == old(txn).env_ident(),
        ensures
            if old(txn).has_table(self.dbi()) {
                (r matches Ok(it) && rw_rev_walk(
                    &it,
                    old(txn),
                    self.dbi(),
                    old(txn).table(self.dbi()).reverse(),
                ) && *final(txn) == *final(it.cursor.txn))
            } else {
                fails_with(r, Error::Engine(EngineError::UnknownTable)) && *final(txn) == *old(txn)
            },
    {
        let cursor = match RwCursor::new(txn, self.dbi) {
            Ok(c) => c,
            Err(e) => {
                return Err(e);
            },
        };
        proof {
            let s = cursor.entries();
            assert(range_entries(s, Bound::Unbounded, Bound::Unbounded) =~= s);
        }
        Ok(RwRevIter::new(cursor, Bound::Unbounded, Bound::Unbounded))
    }

    /// A walk over the entries whose keys lie in `range`, in increasing key
    /// order. The bounds are compared as encoded bytes.
    pub fn range<'a, 'txn, KC: BytesEncode, DC>(
        &self,
        txn: &'txn RoTxn,
        range: &KeyRange<'a, KC::EItem>,
    ) -> (r: Result<RoRange<'txn, KC, DC>, Error>)
        requires
            txn.wf(),
            self.env_ident() == txn.env_ident(),
        ensures
            match encoded_range::<KC>(range.start@, range.end@) {
                Err(e) => fails_with(r, e),
                Ok(b) => if txn.has_table(self.dbi()) {
                    (r matches Ok(it) && ro_walk(
                        &it,
                        txn,
                        self.dbi(),
                        range_entries(txn.table(self.dbi()), b.0, b.1),
                    ))
                } else {
                    fails_with(r, Error::Engine(EngineError::UnknownTable))
                },
            },
    {
        let (start, end) = match encode_range::<KC>(range) {
            Ok(b) => b,
            Err(e) => {
                return Err(e);
            },
        };
        let cursor = match RoCursor::new(txn, self.dbi) {
            Ok(c) => c,
            Err(e) => {
                return Err(e);
            },
        };
        Ok(RoRange::new(cursor, start, end))
    }

    /// A walk over the entries whose keys lie in `range`, in increasing key
    /// order, with leave to replace and delete the entry last yielded.
    pub fn range_mut<'a, 'txn, KC: BytesEncode, DC>(
        &self,
        txn: &'txn mut RwTxn,
        range: &KeyRange<'a, KC::EItem>,
    ) -> (r: Result<RwRange<'txn, KC, DC>, Error>)
        requires
            old(txn).wf(),
            self.env_ident() == old(txn).env_ident(),
        ensures
            match encoded_range::<KC>(range.start@, range.end@) {
                Err(e) => fails_with(r, e) && *final(txn) == *old(txn),
                Ok(b) => if old(txn).has_table(self.dbi()) {
                    (r matches Ok(it) && rw_walk(
                        &it,
                        old(txn),
                        self.dbi(),
                        range_entries(old(txn).table(self.dbi()), b.0, b.1),
                    ) && *final(txn) == *final(it.cursor.txn))
                } else {
                    fails_with(r, Error::Engine(EngineError::UnknownTable))
                        && *final(txn) == *old(txn)
                },
            },
    {
        let (start, end) = match encode_range::<KC>(range) {
            Ok(b) => b,
            Err(e) => {
                return Err(e);
            },
        };
        let cursor = match RwCursor::new(txn, self.dbi) {
            Ok(c) => c,
            Err(e) => {
                return Err(e);
            },
        };
        Ok(RwRange::new(cursor, start, end))
    }

    /// A walk over the entries whose keys lie in `range`, in decreasing key
    /// order. The bounds are compared as encoded bytes.
    pub fn rev_range<'a, 'txn, KC: BytesEncode, DC>(
        &self,
        txn: &'txn RoTxn,
        range: &KeyRange<'a, KC::EItem>,
    ) -> (r: Result<RoRevRange<'txn, KC, DC>, Error>)
        requires
            txn.wf(),
            self.env_ident() == txn.env_ident(),
        ensures
            match encoded_range::<KC>(range.start@, range.end@) {
                Err(e) => fails_with(r, e),
                Ok(b) => if txn.has_table(self.dbi()) {
                    (r matches Ok(it) && ro_rev_walk(
                        &it,
                        txn,
                        self.dbi(),
                        range_entries(txn.table(self.dbi()), b.0, b.1).reverse(),
                    ))
                } else {
                    fails_with(r, Error::Engine(EngineError::UnknownTable))
                },
            },
    {
        let (start, end) = match encode_range::<KC>(range) {
            Ok(b) => b,
            Err(e) => {
                return Err(e);
            },
        };
        let cursor = match RoCursor::new(txn, self.dbi) {
            Ok(c) => c,
            Err(e) => {
                return Err(e);
            },
        };
        Ok(RoRevRange::new(cursor, start, end))
    }

    /// A walk over the entries whose keys lie in `range`, in decreasing key
    /// order, with leave to replace and delete the entry last yielded.
    pub fn rev_range_mut<'a, 'txn, KC: BytesEncode, DC>(
        &self,
        txn: &'txn mut RwTxn,
        range: &KeyRange<'a, KC::EItem>,
    ) -> (r: Result<RwRevRange<'txn, KC, DC>, Error>)
        requires
            old(txn).wf(),
            self.env_ident() == old(txn).env_ident(),
        ensures
            match encoded_range::<KC>(range.start@, range.end@) {
                Err(e) => fails_with(r, e) && *final(txn) == *old(txn),
                Ok(b) => if old(txn).has_table(self.dbi()) {
                    (r matches Ok(it) && rw_rev_walk(
                        &it,
                        old(txn),
                        self.dbi(),
                        range_entries(old(txn).table(self.dbi()), b.0, b.1).reverse(),
                    ) && *final(txn) == *final(it.cursor.txn))
                } else {
                    fails_with(r, Error::Engine(EngineError::UnknownTable))
                        && *final(txn) == *old(txn)
                },
            },
    {
        let (start, end) = match encode_range::<KC>(range) {
            Ok(b) => b,
            Err(e) => {
                return Err(e);
            },
        };
        let cursor = match RwCursor::new(txn, self.dbi) {
            Ok(c) => c,
            Err(e) => {
                return Err(e);
            },
        };
        Ok(RwRevRange::new(cursor, start, end))
    }

    /// A walk over the entries whose encoded keys start with the encoding of
    /// `prefix`, in increasing key order.
    pub fn prefix_iter<'a, 'txn, KC: BytesEncode, DC>(
        &self,
        txn: &'txn RoTxn,
        prefix: &'a KC::EItem,
    ) -> (r: Result<RoPrefix<'txn, KC, DC>, Error>)
        requires
            txn.wf(),
            self.env_ident() == txn.env_ident(),
        ensures
            match KC::encode_spec(prefix@) {
                Err(e) => fails_with(r, Error::Encoding(e)),
                Ok(p) => if txn.has_table(self.dbi()) {
                    (r matches Ok(it) && ro_walk(
                        &it,
                        txn,
                        self.dbi(),
                        prefix_entries(txn.table(self.dbi()), p),
                    ))
                } else {
                    fails_with(r, Error::Engine(EngineError::UnknownTable))
                },
            },
    {
        let prefix_bytes = match KC::bytes_encode(prefix) {
            Ok(b) => b,
            Err(e) => {
                return Err(Error::Encoding(e));
            },
        };
        let (start, end) = prefix_bounds(prefix_bytes);
        let cursor = match RoCursor::new(txn, self.dbi) {
            Ok(c) => c,
            Err(e) => {
                return Err(e);
            },
        };
        Ok(RoPrefix::new(cursor, start, end))
    }

    /// A walk over the entries whose encoded keys start with the encoding of
    /// `prefix`, in increasing key order, with leave to replace and delete
    /// the entry last yielded.
    pub fn prefix_iter_mut<'a, 'txn, KC: BytesEncode, DC>(
        &self,
        txn: &'txn mut RwTxn,
        prefix: &'a KC::EItem,
    ) -> (r: Result<RwPrefix<'txn, KC, DC>, Error>)
        requires
            old(txn).wf(),
            self.env_ident() == old(txn).env_ident(),
        ensures
            match KC::encode_spec(prefix@) {
                Err(e) => fails_with(r, Error::Encoding(e)) && *final(txn) == *old(txn),
                Ok(p) => if old(txn).has_table(self.dbi()) {
                    (r matches Ok(it) && rw_walk(
                        &it,
                        old(txn),
                        self.dbi(),
                        prefix_entries(old(txn).table(self.dbi()), p),
                    ) && *final(txn) == *final(it.cursor.txn))
                } else {
                    fails_with(r, Error::Engine(EngineError::UnknownTable))
                        && *final(txn) == *old(txn)
                },
            },
    {
        let prefix_bytes = match KC::bytes_encode(prefix) {
            Ok(b) => b,
            Err(e) => {
                return Err(Error::Encoding(e));
            },
        };
        let (start, end) = prefix_bounds(prefix_bytes);
        let cursor = match RwCursor::new(txn, self.dbi) {
            Ok(c) => c,
            Err(e) => {
                return Err(e);
            },
        };
        Ok(RwPrefix::new(cursor, start, end))
    }

    /// A walk over the entries whose encoded keys start with the encoding of
    /// `prefix`, in decreasing key order.
    pub fn rev_prefix_iter<'a, 'txn, KC: BytesEncode, DC>(
        &self,
        txn: &'txn RoTxn,
        prefix: &'a KC::EItem,
    ) -> (r: Result<RoRevPrefix<'txn, KC, DC>, Error>)
        requires
            txn.wf(),
            self.env_ident() == txn.env_ident(),
        ensures
            match KC::encode_spec(prefix@) {
                Err(e) => fails_with(r, Error::Encoding(e)),
                Ok(p) => if txn.has_table(self.dbi()) {
                    (r matches Ok(it) && ro_rev_walk(
                        &it,
                        txn,
                        self.dbi(),
                        prefix_entries(txn.table(self.dbi()), p).reverse(),
                    ))
                } else {
                    fails_with(r, Error::Engine(EngineError::UnknownTable))
                },
            },
    {
        let prefix_bytes = match KC::bytes_encode(prefix) {
            Ok(b) => b,
            Err(e) => {
                return Err(Error::Encoding(e));
            },
        };
        let (start, end) = prefix_bounds(prefix_bytes);
        let cursor = match RoCursor::new(txn, self.dbi) {
            Ok(c) => c,
            Err(e) => {
                return Err(e);
            },
        };
        Ok(RoRevPrefix::new(cursor, start, end))
    }

    /// A walk over the entries whose encoded keys start with the encoding of
    /// `prefix`, in decreasing key order, with leave to replace and delete
    /// the entry last yielded.
    pub fn rev_prefix_iter_mut<'a, 'txn, KC: BytesEncode, DC>(
        &self,
        txn: &'txn mut RwTxn,
        prefix: &'a KC::EItem,
    ) -> (r: Result<RwRevPrefix<'txn, KC, DC>, Error>)
        requires
            old(txn).wf(),
            self.env_ident() == old(txn).env_ident(),
        ensures
            match KC::encode_spec(prefix@) {
                Err(e) => fails_with(r, Error::Encoding(e)) && *final(txn) == *old(txn),
                Ok(p) => if old(txn).has_table(self.dbi()) {
                    (r matches Ok(it) && rw_rev_walk(
                        &it,
                        old(txn),
                        self.dbi(),
                        prefix_entries(old(txn).table(self.dbi()), p).reverse(),
                    ) && *final(txn) == *final(it.cursor.txn))
                } else {
                    fails_with(r, Error::Engine(EngineError::UnknownTable))
                        && *final(txn) == *old(txn)
                },
            },
    {
        let prefix_bytes = match KC::bytes_encode(prefix) {
            Ok(b) => b,
            Err(e) => {
                return Err(Error::Encoding(e));
            },
        };
        let (start, end) = prefix_bounds(prefix_bytes);
        let cursor = match RwCursor::new(txn, self.dbi) {
            Ok(c) => c,
            Err(e) => {
                return Err(e);
            },
        };
        Ok(RwRevPrefix::new(cursor, start, end))
    }

    /// Stores `data` under `key`, over any value that was there.
    pub fn put<KC: BytesEncode, DC: BytesEncode>(
        &self,
        txn: &mut RwTxn,
        key: &KC::EItem,
        data: &DC::EItem,
    ) -> (r: Result<(), Error>)
        requires
            old(txn).wf(),
            self.env_ident() == old(txn).env_ident(),
        ensures
            final(txn).wf(),
            put_spec::<KC, DC>(old(txn), final(txn), self.dbi(), key@, data@, r),
    {
        let key_bytes = match KC::bytes_encode(key) {
            Ok(b) => b,
            Err(e) => {
                return Err(Error::Encoding(e));
            },
        };
        let data_bytes = match DC::bytes_encode(data) {
            Ok(b) => b,
            Err(e) => {
                return Err(Error::Encoding(e));
            },
        };
        txn.raw_put(self.dbi, key_bytes.as_slice(), data_bytes.as_slice(), WriteMode::Upsert)
    }

    /// Stores `data` under `key` at the end of the table. The key must be
    /// above every key of the table: one that is not is refused, and the
    /// table stays as it was.
    pub fn append<KC: BytesEncode, DC: BytesEncode>(
        &self,
        txn: &mut RwTxn,
        key: &KC::EItem,
        data: &DC::EItem,
    ) -> (r: Result<(), Error>)
        requires
            old(txn).wf(),
            self.env_ident() == old(txn).env_ident(),
        ensures
            final(txn).wf(),
            append_spec::<KC, DC>(old(txn), final(txn), self.dbi(), key@, data@, r),
    {
        let key_bytes = match KC::bytes_encode(key) {
            Ok(b) => b,
            Err(e) => {
                return Err(Error::Encoding(e));
            },
        };
        let data_bytes = match DC::bytes_encode(data) {
            Ok(b) => b,
            Err(e) => {
                return Err(Error::Encoding(e));
            },
        };
        proof {
            if txn.has_table(self.dbi) && appendable(txn.table(self.dbi), key_bytes@) {
                lemma_append_is_put(txn.table(self.dbi), key_bytes@, data_bytes@);
            }
        }
        txn.raw_put(self.dbi, key_bytes.as_slice(), data_bytes.as_slice(), WriteMode::Append)
    }

    /// Removes the entry stored under `key` and tells whether there was one.
    pub fn delete<KC: BytesEncode>(&self, txn: &mut RwTxn, key: &KC::EItem) -> (r: Result<
        bool,
        Error,
    >)
        requires
            old(txn).wf(),
            self.env_ident() == old(txn).env_ident(),
        ensures
            final(txn).wf(),
            delete_spec::<KC>(old(txn), final(txn), self.dbi(), key@, r),
    {
        let key_bytes = match KC::bytes_encode(key) {
            Ok(b) => b,
            Err(e) => {
                return Err(Error::Encoding(e));
            },
        };
        match txn.raw_delete(self.dbi, key_bytes.as_slice()) {
            Ok(existed) => Ok(existed),
            Err(e) => Err(Error::Engine(e)),
        }
    }

    /// Removes every entry of the table, in one engine operation.
    pub fn clear(&self, txn: &mut RwTxn) -> (r: Result<(), Error>)
        requires
            old(txn).wf(),
            self.env_ident() == old(txn).env_ident(),
        ensures
            final(txn).wf(),
            clear_spec(old(txn), final(txn), self.dbi(), r),
    {
        match txn.drop_table_contents(self.dbi) {
            Ok(()) => Ok(()),
            Err(e) => Err(Error::Engine(e)),
        }
    }

    /// Removes the entries whose keys lie in `range` and returns how many
    /// they were: it walks the interval forward, decoding each key, and
    /// deletes each entry as it comes. A key that does not decode ends the
    /// walk with its decoding error; the entries before it are gone by then.
    pub fn delete_range<'a, KC: BytesEncode + BytesDecode>(
        &self,
        txn: &mut RwTxn,
        range: &KeyRange<'a, KC::EItem>,
    ) -> (r: Result<usize, Error>)
        requires
            old(txn).wf(),
            self.env_ident() == old(txn).env_ident(),
        ensures
            final(txn).wf(),
            delete_range_spec::<KC>(old(txn), final(txn), self.dbi(), range.start@, range.end@, r),
    {
        let ghost before = *txn;
        let ghost s = txn.table(self.dbi);
        let mut iter = match self.range_mut::<KC, DecodeIgnore>(txn, range) {
            Ok(it) => it,
            Err(e) => {
                return Err(e);
            },
        };
        let ghost bounds = encoded_range::<KC>(range.start@, range.end@)->Ok_0;
        let ghost a = lower_index(s, bounds.0);
        let ghost all = range_entries(s, bounds.0, bounds.1);
        proof {
            crate::bounds::lemma_lower_index(s, bounds.0);
            crate::bounds::lemma_upper_index(s, bounds.1);
            assert(kept(s, a, 0) =~= s);
            assert(before.ro()@.update(self.dbi as int, s) =~= before.ro()@);
            assert(all.skip(0) =~= all);
        }
        let mut count: usize = 0;
        loop
            invariant
                before == *old(txn),
                before.wf(),
                before.has_table(self.dbi),
                s == before.table(self.dbi),
                crate::table::sorted(s),
                s.len() <= usize::MAX,
                encoded_range::<KC>(range.start@, range.end@) == Ok::<
                    (Bound<Seq<u8>>, Bound<Seq<u8>>),
                    Error,
                >(bounds),
                all == range_entries(s, bounds.0, bounds.1),
                a == lower_index(s, bounds.0),
                0 <= a <= s.len(),
                0 <= upper_index(s, bounds.1) <= s.len(),
                iter.wf(),
                iter.cursor.dbi == self.dbi,
                iter.current() is None,
                count <= all.len(),
                forall|j: int| 0 <= j < count ==> KC::decode_spec(#[trigger] all[j].0) is Ok,
                iter.pending() == all.skip(count as int),
                iter.cursor.txn.changed_from(&before, self.dbi, kept(s, a, count as int)),
                *final(iter.cursor.txn) == after_borrow(*txn),
            ensures
                count == all.len(),
                forall|j: int| 0 <= j < count ==> KC::decode_spec(#[trigger] all[j].0) is Ok,
            decreases all.len() - count,
        {
            let ghost prev = *iter.cursor.txn;
            match iter.next() {
                None => {
                    break ;
                },
                Some(Ok(_)) => {},
                Some(Err(e)) => {
                    proof {
                        assert(all.skip(count as int)[0] == all[count as int]);
                        lemma_decodable_run::<KC>(all, count as int);
                    }
                    return Err(e);
                },
            }
            proof {
                assert(all.len() > count);
                assert(all.len() <= s.len() <= usize::MAX);
                assert(all.skip(count as int)[0] == all[count as int]);
                assert(all[count as int] == s[a + count]);
                assert(prev.table(self.dbi) == kept(s, a, count as int));
                assert(crate::table::table_ok(prev.ro()@[self.dbi as int]));
                lemma_kept_step(s, a, count as int);
                assert(all.skip(count as int).skip(1) =~= all.skip(count + 1));
            }
            match iter.delete_current() {
                Ok(_) => {},
                Err(e) => {
                    return Err(e);
                },
            }
            proof {
                assert(before.ro()@.update(self.dbi as int, kept(s, a, count as int)).update(
                    self.dbi as int,
                    kept(s, a, count + 1),
                ) =~= before.ro()@.update(self.dbi as int, kept(s, a, count + 1)));
            }
            count += 1;
        }
        proof {
            lemma_decodable_run::<KC>(all, count as int);
            if a <= upper_index(s, bounds.1) {
                assert(kept(s, a, count as int) =~= without_range(s, bounds.0, bounds.1));
            } else {
                assert(kept(s, a, 0) =~= s);
            }
        }
        Ok(count)
    }

    /// Ends a reserved write: it stores what the writer left in `space`
    /// under the key, if the space still has the reserved size, and says how
    /// the write ended.
    pub fn finish_reserved(
        &self,
        txn: &mut RwTxn,
        key_bytes: &[u8],
        data_size: usize,
        space: ReservedSpace,
        written: Result<(), Error>,
    ) -> (r: Result<(), Error>)
        requires
            old(txn).wf(),
            self.env_ident() == old(txn).env_ident(),
        ensures
            final(txn).wf(),
            if !old(txn).has_table(self.dbi()) {
                fails_with(r, Error::Engine(EngineError::UnknownTable)) && final(txn).same_as(
                    old(txn),
                )
            } else {
                r == reserved_outcome(space, data_size, written) && if space.size() == data_size {
                    final(txn).changed_from(
                        old(txn),
                        self.dbi(),
                        put_entry(old(txn).table(self.dbi()), key_bytes@, space.bytes()),
                    )
                } else {
                    final(txn).same_as(old(txn))
                }
            },
    {
        if !txn.as_ro().knows(self.dbi) {
            return Err(Error::Engine(EngineError::UnknownTable));
        }
        let exact = space.capacity() == data_size;
        let full = space.remaining() == 0;
        if exact {
            match txn.raw_put(self.dbi, key_bytes, space.as_slice(), WriteMode::Upsert) {
                Ok(()) => {},
                Err(e) => {
                    return Err(e);
                },
            }
        }
        match written {
            Err(e) => Err(e),
            Ok(()) => if exact && full {
                Ok(())
            } else {
                Err(Error::ReservedWriteIncomplete)
            },
        }
    }

    /// Reserves `data_size` bytes under `key`, lets `write_func` fill them,
    /// and fails unless it filled them exactly. The reserved bytes are
    /// zeros until written, and stay stored whatever the writer did.
    pub fn put_reserved<KC: BytesEncode, F>(
        &self,
        txn: &mut RwTxn,
        key: &KC::EItem,
        data_size: usize,
        write_func: F,
    ) -> (r: Result<(), Error>) where F: FnOnce(&mut ReservedSpace) -> Result<(), Error>
        requires
            old(txn).wf(),
            self.env_ident() == old(txn).env_ident(),
            forall|space: &mut ReservedSpace|
                (*space).size() == data_size && (*space).filled() == 0 && (*space).bytes() == zeros(
                    data_size as nat,
                ) ==> #[trigger] call_requires(write_func, (space,)),
        ensures
            final(txn).wf(),
            match KC::encode_spec(key@) {
                Err(e) => fails_with(r, Error::Encoding(e)) && final(txn).same_as(old(txn)),
                Ok(kb) => if !old(txn).has_table(self.dbi()) {
                    fails_with(r, Error::Engine(EngineError::UnknownTable)) && final(txn).same_as(
                        old(txn),
                    )
                } else {
                    exists|space: &mut ReservedSpace, written: Result<(), Error>|
                        #![trigger call_ensures(write_func, (space,), written)]
                        (*space).size() == data_size && (*space).filled() == 0
                            && (*space).bytes() == zeros(data_size as nat)
                            && call_ensures(write_func, (space,), written)
                            && reserved_spec(
                            old(txn),
                            final(txn),
                            self.dbi(),
                            kb,
                            data_size,
                            *final(space),
                            written,
                            r,
                        )
                },
            },
    {
        let key_bytes = match KC::bytes_encode(key) {
            Ok(b) => b,
            Err(e) => {
                return Err(Error::Encoding(e));
            },
        };
        let ghost before = *txn;
        let ghost s = txn.table(self.dbi);
        let mut space = match txn.raw_reserve(self.dbi, key_bytes.as_slice(), data_size) {
            Ok(space) => space,
            Err(e) => {
                return Err(e);
            },
        };
        let ghost reserved = *txn;
        let written = write_func(&mut space);
        let r = self.finish_reserved(txn, key_bytes.as_slice(), data_size, space, written);
        proof {
            let t = put_entry(s, key_bytes@, zeros(data_size as nat));
            assert(reserved.table(self.dbi) == t);
            assert(crate::table::table_ok(before.ro()@[self.dbi as int]));
            if space.size() == data_size {
                lemma_put_twice(s, key_bytes@, zeros(data_size as nat), space.bytes());
                assert(before.ro()@.update(self.dbi as int, t).update(
                    self.dbi as int,
                    put_entry(t, key_bytes@, space.bytes()),
                ) =~= before.ro()@.update(
                    self.dbi as int,
                    put_entry(s, key_bytes@, space.bytes()),
                ));
            }
            let kb0 = KC::encode_spec(key@)->Ok_0;
            assert(reserved_spec(old(txn), txn, self.dbi(), kb0, data_size, space, written, r));
        }
        r
    }

    /// The same table as a uniform handle with the codecs `KC` and `DC`.
    pub fn as_uniform<KC, DC>(&self) -> (db: Database<KC, DC>)
        ensures
            db.env_ident() == self.env_ident(),
            db.dbi() == self.dbi(),
    {
        Database::new(self.env_ident, self.dbi)
    }
}

} // verus!
