//! Laws: what holds between the operations of a table handle, stated over
//! the functions that their contracts speak of.

use crate::bounds::{
    above_start, below_end, lemma_lower_index, lemma_prefix_is_filter, lemma_range_is_filter,
    lemma_upper_index, lower_index, prefix_entries, range_entries, upper_index, within, Bound,
};
use crate::bytes::{has_prefix, lex_lt};
use crate::codec::{lemma_beu64_order, BytesDecode, BytesEncode, BEU64};
use crate::db::{
    clear_spec, decodable_run, delete_range_spec, delete_spec, encoded_range, get_spec, kept,
    lemma_decodable_run_splits, lookup, put_spec, without_range,
};
use crate::env::{Env, RoTxn, RwTxn};
use crate::error::Error;
use crate::table::{
    has_key, lemma_put_entry, lemma_remove_entry, lemma_to_map_entry, put_entry, remove_entry,
    sorted, RawEntry,
};
use vstd::prelude::*;

verus! {

/// Overwrite law, on bytes: after a put, the key holds the value that was
/// put, and every other key holds what it held.
pub proof fn law_put_then_lookup(s: Seq<RawEntry>, k: Seq<u8>, v: Seq<u8>)
    requires
        sorted(s),
    ensures
        sorted(put_entry(s, k, v)),
        lookup(put_entry(s, k, v), k) == Some(v),
        forall|other: Seq<u8>| other != k ==> lookup(put_entry(s, k, v), other) == lookup(s, other),
{
    lemma_put_entry(s, k, v);
}

/// Overwrite law: a `get` that follows a successful `put` of `data` under
/// `key`, in the transaction as the `put` left it, returns `data`, provided
/// the value codec decodes what it encoded.
pub proof fn law_get_after_put<KC: BytesEncode, DC: BytesEncode + BytesDecode>(
    before: &RwTxn,
    after: &RwTxn,
    dbi: u32,
    key: <KC::EItem as View>::V,
    data: <<DC as BytesEncode>::EItem as View>::V,
    put_result: Result<(), Error>,
    get_result: Result<Option<<DC as BytesDecode>::DItem>, Error>,
    decoded: <<DC as BytesDecode>::DItem as View>::V,
)
    requires
        before.wf(),
        put_spec::<KC, DC>(before, after, dbi, key, data, put_result),
        put_result is Ok,
        get_spec::<KC, DC>(&after.ro(), dbi, key, get_result),
        <DC as BytesDecode>::decode_spec(<DC as BytesEncode>::encode_spec(data)->Ok_0) == Ok::<
            <<DC as BytesDecode>::DItem as View>::V,
            crate::error::CodecError,
        >(decoded),
    ensures
        get_result matches Ok(Some(v)) && v@ == decoded,
{
    let kb = KC::encode_spec(key)->Ok_0;
    let vb = <DC as BytesEncode>::encode_spec(data)->Ok_0;
    assert(crate::table::table_ok(before.ro()@[dbi as int]));
    law_put_then_lookup(before.table(dbi), kb, vb);
}

/// Later transactions: a transaction begun on an environment after a
/// commit holds, table by table, what the committed transaction held, so
/// that every lookup in it finds what the same lookup found there.
pub proof fn law_later_transaction(committed: &RwTxn, env: &Env, later: &RoTxn, dbi: u32)
    requires
        env@ == committed.ro()@,
        later@ == env@,
    ensures
        later.has_table(dbi) == committed.has_table(dbi),
        later.table(dbi) == committed.table(dbi),
        forall|k: Seq<u8>| lookup(later.table(dbi), k) == lookup(committed.table(dbi), k),
{
}

/// Absence law, on bytes: an empty table holds no key, and a key that was
/// deleted is absent until it is put again.
pub proof fn law_absent(s: Seq<RawEntry>, k: Seq<u8>)
    requires
        sorted(s),
    ensures
        lookup(Seq::<RawEntry>::empty(), k) is None,
        sorted(remove_entry(s, k)),
        lookup(remove_entry(s, k), k) is None,
        forall|other: Seq<u8>| other != k ==> lookup(remove_entry(s, k), other) == lookup(s, other),
{
    lemma_remove_entry(s, k);
    if has_key(Seq::<RawEntry>::empty(), k) {
        let i = choose|i: int| 0 <= i < 0 && #[trigger] Seq::<RawEntry>::empty()[i].0 == k;
    }
}

/// Absence law: a `get` that follows a `delete` of the same key, in the
/// transaction as the `delete` left it, returns nothing.
pub proof fn law_get_after_delete<KC: BytesEncode, DC: BytesDecode>(
    before: &RwTxn,
    after: &RwTxn,
    dbi: u32,
    key: <KC::EItem as View>::V,
    delete_result: Result<bool, Error>,
    get_result: Result<Option<DC::DItem>, Error>,
)
    requires
        before.wf(),
        delete_spec::<KC>(before, after, dbi, key, delete_result),
        delete_result is Ok,
        get_spec::<KC, DC>(&after.ro(), dbi, key, get_result),
    ensures
        get_result matches Ok(None),
{
    let kb = KC::encode_spec(key)->Ok_0;
    assert(crate::table::table_ok(before.ro()@[dbi as int]));
    law_absent(before.table(dbi), kb);
}

/// Order law: a walk over the whole of a table yields its entries in
/// strictly increasing key order, and the backward walk yields the same
/// entries in the reverse order.
pub proof fn law_iteration_order(s: Seq<RawEntry>)
    requires
        sorted(s),
    ensures
        range_entries(s, Bound::Unbounded, Bound::Unbounded) == s,
        forall|i: int, j: int|
            0 <= i < j < s.len() ==> lex_lt(#[trigger] s[i].0, #[trigger] s[j].0),
        s.reverse().len() == s.len(),
        forall|i: int| 0 <= i < s.len() ==> #[trigger] s.reverse()[i] == s[s.len() - 1 - i],
        forall|i: int, j: int|
            0 <= i < j < s.len() ==> lex_lt(
                #[trigger] s.reverse()[j].0,
                #[trigger] s.reverse()[i].0,
            ),
{
    assert(range_entries(s, Bound::Unbounded, Bound::Unbounded) =~= s);
    assert forall|i: int, j: int| 0 <= i < j < s.len() implies lex_lt(
        #[trigger] s.reverse()[j].0,
        #[trigger] s.reverse()[i].0,
    ) by {
        assert(lex_lt(s[s.len() - 1 - j].0, s[s.len() - 1 - i].0));
    }
}

/// Range law: a walk over an interval yields exactly the entries whose keys
/// lie in the interval under the inclusivity of its ends, in key order, and
/// the backward walk yields the same entries in the reverse order.
pub proof fn law_range(s: Seq<RawEntry>, lo: Bound<Seq<u8>>, hi: Bound<Seq<u8>>)
    requires
        sorted(s),
    ensures
        range_entries(s, lo, hi) == s.filter(|e: RawEntry| within(e.0, lo, hi)),
        range_entries(s, lo, hi).reverse().reverse() == range_entries(s, lo, hi),
{
    lemma_range_is_filter(s, lo, hi);
    let r = range_entries(s, lo, hi);
    assert(r.reverse().reverse() =~= r);
}

/// `key` lies in the interval from `start` to `end`, as a number.
pub open spec fn in_number_range(key: u64, start: Bound<u64>, end: Bound<u64>) -> bool {
    &&& match start {
        Bound::Included(a) => a <= key,
        Bound::Excluded(a) => a < key,
        Bound::Unbounded => true,
    }
    &&& match end {
        Bound::Included(b) => key <= b,
        Bound::Excluded(b) => key < b,
        Bound::Unbounded => true,
    }
}

/// Range law for numbers: under the unsigned big-endian codec a key lies in
/// an encoded interval exactly when the number lies between the numbers at
/// its ends, so that a walk over an interval of numbers yields the entries
/// whose numbers lie in it.
pub proof fn law_range_of_numbers(key: u64, start: Bound<u64>, end: Bound<u64>)
    ensures
        encoded_range::<BEU64>(start, end) is Ok,
        within(
            BEU64::encode_spec(key)->Ok_0,
            encoded_range::<BEU64>(start, end)->Ok_0.0,
            encoded_range::<BEU64>(start, end)->Ok_0.1,
        ) <==> in_number_range(key, start, end),
{
    match start {
        Bound::Included(a) => lemma_beu64_order(a, key),
        Bound::Excluded(a) => lemma_beu64_order(a, key),
        Bound::Unbounded => {},
    }
    match end {
        Bound::Included(b) => lemma_beu64_order(key, b),
        Bound::Excluded(b) => lemma_beu64_order(key, b),
        Bound::Unbounded => {},
    }
}

/// Prefix law: a walk over a prefix yields exactly the entries whose keys
/// start with the prefix, in key order.
pub proof fn law_prefix(s: Seq<RawEntry>, p: Seq<u8>)
    requires
        sorted(s),
    ensures
        prefix_entries(s, p) == s.filter(|e: RawEntry| has_prefix(e.0, p)),
{
    lemma_prefix_is_filter(s, p);
}

/// Range deletion law, on bytes: what `delete_range` counts is the number
/// of entries whose keys lay in the interval, and what it leaves holds none
/// of those keys and every other key with its value.
pub proof fn law_without_range(s: Seq<RawEntry>, lo: Bound<Seq<u8>>, hi: Bound<Seq<u8>>)
    requires
        sorted(s),
    ensures
        range_entries(s, lo, hi).len() == s.filter(|e: RawEntry| within(e.0, lo, hi)).len(),
        sorted(without_range(s, lo, hi)),
        forall|k: Seq<u8>| within(k, lo, hi) ==> lookup(without_range(s, lo, hi), k) is None,
        forall|k: Seq<u8>|
            !within(k, lo, hi) ==> lookup(without_range(s, lo, hi), k) == lookup(s, k),
{
    lemma_range_is_filter(s, lo, hi);
    lemma_lower_index(s, lo);
    lemma_upper_index(s, hi);
    let a = lower_index(s, lo);
    let b = upper_index(s, hi);
    let t = without_range(s, lo, hi);
    if a <= b {
        assert forall|i: int| 0 <= i < t.len() implies #[trigger] t[i] == s[if i < a {
            i
        } else {
            i + (b - a)
        }] by {}
        assert forall|i: int, j: int| 0 <= i < j < t.len() implies lex_lt(
            #[trigger] t[i].0,
            #[trigger] t[j].0,
        ) by {
            let i0 = if i < a { i } else { i + (b - a) };
            let j0 = if j < a { j } else { j + (b - a) };
            assert(t[i] == s[i0] && t[j] == s[j0]);
        }
        assert forall|k: Seq<u8>| within(k, lo, hi) implies lookup(t, k) is None by {
            if has_key(t, k) {
                let i = choose|i: int| 0 <= i < t.len() && #[trigger] t[i].0 == k;
                let i0 = if i < a { i } else { i + (b - a) };
                assert(t[i] == s[i0]);
                assert(s[i0].0 == k);
            }
        }
        assert forall|k: Seq<u8>| !within(k, lo, hi) implies lookup(t, k) == lookup(s, k) by {
            if has_key(t, k) {
                let i = choose|i: int| 0 <= i < t.len() && #[trigger] t[i].0 == k;
                let i0 = if i < a { i } else { i + (b - a) };
                assert(t[i] == s[i0]);
                assert(s[i0].0 == k);
                lemma_to_map_entry(t, i);
                lemma_to_map_entry(s, i0);
            }
            if has_key(s, k) {
                let j = choose|j: int| 0 <= j < s.len() && #[trigger] s[j].0 == k;
                if a <= j < b {
                    assert(above_start(s[j].0, lo) && below_end(s[j].0, hi));
                }
                let j1 = if j < a { j } else { j - (b - a) };
                assert(t[j1] == s[j]);
                assert(t[j1].0 == k);
                lemma_to_map_entry(t, j1);
                lemma_to_map_entry(s, j);
            }
        }
    } else {
        // the two ends cross: no key lies in the interval
        assert forall|k: Seq<u8>| within(k, lo, hi) implies lookup(t, k) is None by {
            if has_key(s, k) {
                let j = choose|j: int| 0 <= j < s.len() && #[trigger] s[j].0 == k;
                if j < a {
                    assert(!above_start(s[j].0, lo));
                } else {
                    assert(!below_end(s[j].0, hi));
                }
            }
        }
    }
}

/// Range deletion law: a `delete_range` that succeeds returns the number of
/// entries whose keys lay in the interval before, and a `get` of any key of
/// the interval that follows, in the transaction as `delete_range` left it,
/// returns nothing.
pub proof fn law_get_after_delete_range<KC: BytesEncode + BytesDecode, DC: BytesDecode>(
    before: &RwTxn,
    after: &RwTxn,
    dbi: u32,
    start: Bound<<KC::EItem as View>::V>,
    end: Bound<<KC::EItem as View>::V>,
    delete_result: Result<usize, Error>,
    key: <KC::EItem as View>::V,
    get_result: Result<Option<DC::DItem>, Error>,
)
    requires
        before.wf(),
        delete_range_spec::<KC>(before, after, dbi, start, end, delete_result),
        delete_result is Ok,
        KC::encode_spec(key) is Ok,
        within(
            KC::encode_spec(key)->Ok_0,
            encoded_range::<KC>(start, end)->Ok_0.0,
            encoded_range::<KC>(start, end)->Ok_0.1,
        ),
        get_spec::<KC, DC>(&after.ro(), dbi, key, get_result),
    ensures
        delete_result->Ok_0 == before.table(dbi).filter(
            |e: RawEntry|
                within(
                    e.0,
                    encoded_range::<KC>(start, end)->Ok_0.0,
                    encoded_range::<KC>(start, end)->Ok_0.1,
                ),
        ).len(),
        get_result matches Ok(None),
{
    let bounds = encoded_range::<KC>(start, end)->Ok_0;
    let s = before.table(dbi);
    assert(crate::table::table_ok(before.ro()@[dbi as int]));
    law_without_range(s, bounds.0, bounds.1);
    assert(range_entries(s, bounds.0, bounds.1).len() <= s.len()) by {
        lemma_lower_index(s, bounds.0);
        lemma_upper_index(s, bounds.1);
    }
}

/// Clear law: after a successful `clear` the table holds no entry, so that
/// `is_empty` answers `true` and `len` answers `0`, and every `get` returns
/// nothing.
pub proof fn law_clear<KC: BytesEncode, DC: BytesDecode>(
    before: &RwTxn,
    after: &RwTxn,
    dbi: u32,
    clear_result: Result<(), Error>,
    key: <KC::EItem as View>::V,
    get_result: Result<Option<DC::DItem>, Error>,
)
    requires
        before.wf(),
        clear_spec(before, after, dbi, clear_result),
        clear_result is Ok,
        KC::encode_spec(key) is Ok,
        get_spec::<KC, DC>(&after.ro(), dbi, key, get_result),
    ensures
        after.has_table(dbi),
        after.table(dbi).len() == 0,
        after.table(dbi).len() as u64 == 0,
        get_result matches Ok(None),
{
    assert(crate::table::table_ok(before.ro()@[dbi as int]));
    law_absent(before.table(dbi), KC::encode_spec(key)->Ok_0);
}

/// Range deletion passes decoding errors on: with bounds that encode and a
/// known table, `delete_range` succeeds exactly when every key of the
/// interval decodes under the key codec. Else it fails with the decoding
/// error of the first key of the interval, in key order, that does not
/// decode, and has removed the entries of the interval before that key and
/// no other.
pub proof fn law_delete_range_decodes<KC: BytesEncode + BytesDecode>(
    before: &RwTxn,
    after: &RwTxn,
    dbi: u32,
    start: Bound<<KC::EItem as View>::V>,
    end: Bound<<KC::EItem as View>::V>,
    delete_result: Result<usize, Error>,
)
    requires
        before.wf(),
        before.has_table(dbi),
        encoded_range::<KC>(start, end) is Ok,
        delete_range_spec::<KC>(before, after, dbi, start, end, delete_result),
    ensures
        ({
            let bounds = encoded_range::<KC>(start, end)->Ok_0;
            let s = before.table(dbi);
            let inside = range_entries(s, bounds.0, bounds.1);
            &&& delete_result is Ok <==> forall|j: int|
                0 <= j < inside.len() ==> KC::decode_spec(#[trigger] inside[j].0) is Ok
            &&& delete_result is Err ==> exists|n: int|
                {
                    &&& 0 <= n < inside.len()
                    &&& forall|j: int| 0 <= j < n ==> KC::decode_spec(#[trigger] inside[j].0) is Ok
                    &&& #[trigger] KC::decode_spec(inside[n].0) matches Err(e) && delete_result
                        == Err::<usize, Error>(Error::Decoding(e))
                    &&& after.table(dbi) == kept(s, lower_index(s, bounds.0), n)
                }
        }),
{
    let bounds = encoded_range::<KC>(start, end)->Ok_0;
    let s = before.table(dbi);
    let inside = range_entries(s, bounds.0, bounds.1);
    let n = decodable_run::<KC>(inside) as int;
    lemma_decodable_run_splits::<KC>(inside);
    if n < inside.len() {
        assert(KC::decode_spec(inside[n].0) is Err);
    }
}

} // verus!
