//! Interval bounds over keys, and the part of a table that an interval or
//! a prefix selects.

use crate::bytes::{
    compare, has_prefix, lemma_lex_le_iff_not_gt, lemma_prefix_interval, lex_le, lex_lt,
    prefix_successor, successor_of, KeyOrder,
};
use crate::codec::BytesEncode;
use crate::error::Error;
use crate::table::{
    below, count_below, lemma_count_below_splits, lemma_count_below_unique, lemma_remove_at, sorted,
    RawEntry,
};
use vstd::prelude::*;

verus! {

/// One end of an interval.
#[derive(Clone, Debug, PartialEq, Eq)]
pub enum Bound<T> {
    Included(T),
    Excluded(T),
    Unbounded,
}

impl<T: View> View for Bound<T> {
    type V = Bound<T::V>;

    open spec fn view(&self) -> Bound<T::V> {
        match *self {
            Bound::Included(x) => Bound::Included(x@),
            Bound::Excluded(x) => Bound::Excluded(x@),
            Bound::Unbounded => Bound::Unbounded,
        }
    }
}

/// An interval of typed keys, each end included, excluded or open.
pub struct KeyRange<'a, T: ?Sized> {
    pub start: Bound<&'a T>,
    pub end: Bound<&'a T>,
}

impl<'a, T: ?Sized> KeyRange<'a, T> {
    /// The interval between two ends.
    pub fn new(start: Bound<&'a T>, end: Bound<&'a T>) -> (r: KeyRange<'a, T>)
        ensures
            r.start == start,
            r.end == end,
    {
        KeyRange { start, end }
    }

    /// Every key.
    pub fn all() -> (r: KeyRange<'a, T>)
        ensures
            r.start is Unbounded,
            r.end is Unbounded,
    {
        KeyRange { start: Bound::Unbounded, end: Bound::Unbounded }
    }

    /// From `lo` to `hi`, both included.
    pub fn inclusive(lo: &'a T, hi: &'a T) -> (r: KeyRange<'a, T>)
        ensures
            r.start == Bound::Included(lo),
            r.end == Bound::Included(hi),
    {
        KeyRange { start: Bound::Included(lo), end: Bound::Included(hi) }
    }

    /// From `lo`, included, to `hi`, excluded.
    pub fn half_open(lo: &'a T, hi: &'a T) -> (r: KeyRange<'a, T>)
        ensures
            r.start == Bound::Included(lo),
            r.end == Bound::Excluded(hi),
    {
        KeyRange { start: Bound::Included(lo), end: Bound::Excluded(hi) }
    }
}

/// `key` respects the lower end `lo`.
pub open spec fn above_start(key: Seq<u8>, lo: Bound<Seq<u8>>) -> bool {
    match lo {
        Bound::Included(k) => lex_le(k, key),
        Bound::Excluded(k) => lex_lt(k, key),
        Bound::Unbounded => true,
    }
}

/// `key` respects the upper end `hi`.
pub open spec fn below_end(key: Seq<u8>, hi: Bound<Seq<u8>>) -> bool {
    match hi {
        Bound::Included(k) => lex_le(key, k),
        Bound::Excluded(k) => lex_lt(key, k),
        Bound::Unbounded => true,
    }
}

/// `key` lies in the interval from `lo` to `hi`.
pub open spec fn within(key: Seq<u8>, lo: Bound<Seq<u8>>, hi: Bound<Seq<u8>>) -> bool {
    above_start(key, lo) && below_end(key, hi)
}

/// Index of the first entry of `s` that respects the lower end `lo`.
pub open spec fn lower_index(s: Seq<RawEntry>, lo: Bound<Seq<u8>>) -> int {
    match lo {
        Bound::Included(k) => count_below(s, k, false) as int,
        Bound::Excluded(k) => count_below(s, k, true) as int,
        Bound::Unbounded => 0,
    }
}

/// Index just past the last entry of `s` that respects the upper end `hi`.
pub open spec fn upper_index(s: Seq<RawEntry>, hi: Bound<Seq<u8>>) -> int {
    match hi {
        Bound::Included(k) => count_below(s, k, true) as int,
        Bound::Excluded(k) => count_below(s, k, false) as int,
        Bound::Unbounded => s.len() as int,
    }
}

/// The entries of `s` from index `from` up to, not including, index `to`;
/// none when the two do not delimit a part of `s`.
pub open spec fn span(s: Seq<RawEntry>, from: int, to: int) -> Seq<RawEntry> {
    if 0 <= from <= to <= s.len() {
        s.subrange(from, to)
    } else {
        Seq::empty()
    }
}

/// The entries of `s` whose keys lie in the interval, in key order.
pub open spec fn range_entries(s: Seq<RawEntry>, lo: Bound<Seq<u8>>, hi: Bound<Seq<u8>>) -> Seq<
    RawEntry,
> {
    span(s, lower_index(s, lo), upper_index(s, hi))
}

/// The lower end of the interval that holds exactly the keys starting with
/// `p`: `p` itself, included.
pub open spec fn prefix_start(p: Seq<u8>) -> Bound<Seq<u8>> {
    Bound::Included(p)
}

/// The upper end of that interval: the successor of `p`, excluded, or
/// none when `p` has no successor.
pub open spec fn prefix_end(p: Seq<u8>) -> Bound<Seq<u8>> {
    match prefix_successor(p) {
        Some(q) => Bound::Excluded(q),
        None => Bound::Unbounded,
    }
}

/// The entries of `s` whose keys start with `p`, in key order.
pub open spec fn prefix_entries(s: Seq<RawEntry>, p: Seq<u8>) -> Seq<RawEntry> {
    range_entries(s, prefix_start(p), prefix_end(p))
}

/// The entries of a sorted table that respect a lower end are those from
/// `lower_index` on.
pub proof fn lemma_lower_index(s: Seq<RawEntry>, lo: Bound<Seq<u8>>)
    requires
        sorted(s),
    ensures
        0 <= lower_index(s, lo) <= s.len(),
        forall|j: int| 0 <= j < lower_index(s, lo) ==> !above_start(#[trigger] s[j].0, lo),
        forall|j: int| lower_index(s, lo) <= j < s.len() ==> above_start(#[trigger] s[j].0, lo),
{
    match lo {
        Bound::Included(k) => {
            lemma_count_below_splits(s, k, false);
            assert forall|j: int| 0 <= j < s.len() implies (above_start(#[trigger] s[j].0, lo)
                <==> !below(s[j].0, k, false)) by {
                lemma_lex_le_iff_not_gt(k, s[j].0);
            }
        },
        Bound::Excluded(k) => {
            lemma_count_below_splits(s, k, true);
            assert forall|j: int| 0 <= j < s.len() implies (above_start(#[trigger] s[j].0, lo)
                <==> !below(s[j].0, k, true)) by {
                lemma_lex_le_iff_not_gt(s[j].0, k);
            }
        },
        Bound::Unbounded => {},
    }
}

/// The entries of a sorted table that respect an upper end are those
/// before `upper_index`.
pub proof fn lemma_upper_index(s: Seq<RawEntry>, hi: Bound<Seq<u8>>)
    requires
        sorted(s),
    ensures
        0 <= upper_index(s, hi) <= s.len(),
        forall|j: int| 0 <= j < upper_index(s, hi) ==> below_end(#[trigger] s[j].0, hi),
        forall|j: int| upper_index(s, hi) <= j < s.len() ==> !below_end(#[trigger] s[j].0, hi),
{
    match hi {
        Bound::Included(k) => {
            lemma_count_below_splits(s, k, true);
        },
        Bound::Excluded(k) => {
            lemma_count_below_splits(s, k, false);
        },
        Bound::Unbounded => {},
    }
}

/// Filtering a sequence by a predicate that holds exactly on the indices
/// from `a` up to `b` gives that part of the sequence.
proof fn lemma_filter_is_subrange(s: Seq<RawEntry>, pred: spec_fn(RawEntry) -> bool, a: int, b: int)
    requires
        0 <= a <= b <= s.len(),
        forall|j: int| 0 <= j < s.len() ==> (pred(#[trigger] s[j]) <==> a <= j < b),
    ensures
        s.filter(pred) == s.subrange(a, b),
    decreases s.len(),
{
    reveal(Seq::filter);
    if s.len() == 0 {
        assert(s.filter(pred) =~= s.subrange(a, b));
    } else {
        let t = s.drop_last();
        let n = s.len() - 1;
        assert forall|j: int| 0 <= j < t.len() implies t[j] == s[j] by {}
        if b == s.len() && a < b {
            assert(pred(s[n]));
            lemma_filter_is_subrange(t, pred, a, n);
            assert(t.subrange(a, n).push(s.last()) =~= s.subrange(a, b));
        } else if a == b {
            assert(!pred(s[n]));
            lemma_filter_is_subrange(t, pred, 0, 0);
            assert(t.subrange(0, 0) =~= s.subrange(a, b));
        } else {
            assert(!pred(s[n]));
            lemma_filter_is_subrange(t, pred, a, b);
            assert(t.subrange(a, b) =~= s.subrange(a, b));
        }
    }
}

/// Range law: of a sorted table, `range_entries` keeps exactly the entries
/// whose keys lie in the interval, in the order of the table.
pub proof fn lemma_range_is_filter(s: Seq<RawEntry>, lo: Bound<Seq<u8>>, hi: Bound<Seq<u8>>)
    requires
        sorted(s),
    ensures
        range_entries(s, lo, hi) == s.filter(|e: RawEntry| within(e.0, lo, hi)),
{
    lemma_lower_index(s, lo);
    lemma_upper_index(s, hi);
    let a = lower_index(s, lo);
    let b = upper_index(s, hi);
    let pred = |e: RawEntry| within(e.0, lo, hi);
    if a <= b {
        assert forall|j: int| 0 <= j < s.len() implies (pred(#[trigger] s[j]) <==> a <= j < b) by {
            assert(pred(s[j]) == within(s[j].0, lo, hi));
        }
        lemma_filter_is_subrange(s, pred, a, b);
    } else {
        assert forall|j: int| 0 <= j < s.len() implies (pred(#[trigger] s[j]) <==> 0 <= j < 0) by {
            assert(pred(s[j]) == within(s[j].0, lo, hi));
        }
        lemma_filter_is_subrange(s, pred, 0, 0);
        assert(s.subrange(0, 0) =~= Seq::<RawEntry>::empty());
    }
}

/// A key starts with `p` exactly when it lies in the interval of `p`.
pub proof fn lemma_prefix_within(key: Seq<u8>, p: Seq<u8>)
    ensures
        has_prefix(key, p) <==> within(key, prefix_start(p), prefix_end(p)),
{
    lemma_prefix_interval(key, p);
}

/// Prefix law: of a sorted table, `prefix_entries` keeps exactly the
/// entries whose keys start with `p`, in the order of the table.
pub proof fn lemma_prefix_is_filter(s: Seq<RawEntry>, p: Seq<u8>)
    requires
        sorted(s),
    ensures
        prefix_entries(s, p) == s.filter(|e: RawEntry| has_prefix(e.0, p)),
{
    lemma_range_is_filter(s, prefix_start(p), prefix_end(p));
    let f = |e: RawEntry| within(e.0, prefix_start(p), prefix_end(p));
    let g = |e: RawEntry| has_prefix(e.0, p);
    assert forall|e: RawEntry| #[trigger] f(e) == g(e) by {
        lemma_prefix_within(e.0, p);
    }
    assert(f =~= g);
}

/// Removing the entry at `i` lowers by one the count of every bound that
/// the entry lies below, and leaves the others.
pub proof fn lemma_count_below_remove(s: Seq<RawEntry>, i: int, k: Seq<u8>, inclusive: bool)
    requires
        sorted(s),
        0 <= i < s.len(),
    ensures
        count_below(s.remove(i), k, inclusive) == count_below(s, k, inclusive) - if below(
            s[i].0,
            k,
            inclusive,
        ) {
            1int
        } else {
            0int
        },
{
    lemma_count_below_splits(s, k, inclusive);
    lemma_remove_at(s, i);
    let t = s.remove(i);
    let c = count_below(s, k, inclusive) as int;
    let d = if below(s[i].0, k, inclusive) { c - 1 } else { c };
    if below(s[i].0, k, inclusive) {
        assert(i < c);
    } else {
        assert(i >= c);
    }
    assert forall|j: int| 0 <= j < d implies below(#[trigger] t[j].0, k, inclusive) by {
        let j0 = if j < i { j } else { j + 1 };
        assert(t[j] == s[j0]);
    }
    assert forall|j: int| d <= j < t.len() implies !below(#[trigger] t[j].0, k, inclusive) by {
        let j0 = if j < i { j } else { j + 1 };
        assert(t[j] == s[j0]);
    }
    lemma_count_below_unique(t, k, inclusive, d);
}

/// Replacing a value changes no count: counts go by keys.
pub proof fn lemma_count_below_update(
    s: Seq<RawEntry>,
    i: int,
    v: Seq<u8>,
    k: Seq<u8>,
    inclusive: bool,
)
    requires
        sorted(s),
        0 <= i < s.len(),
    ensures
        count_below(s.update(i, (s[i].0, v)), k, inclusive) == count_below(s, k, inclusive),
{
    lemma_count_below_splits(s, k, inclusive);
    crate::table::lemma_update_value(s, i, v);
    let t = s.update(i, (s[i].0, v));
    let c = count_below(s, k, inclusive) as int;
    assert forall|j: int| 0 <= j < c implies below(#[trigger] t[j].0, k, inclusive) by {
        assert(t[j].0 == s[j].0);
    }
    assert forall|j: int| c <= j < t.len() implies !below(#[trigger] t[j].0, k, inclusive) by {
        assert(t[j].0 == s[j].0);
    }
    lemma_count_below_unique(t, k, inclusive, c);
}

/// The entry at `i` of a sorted table is the one that `count_below` finds
/// for its key.
pub proof fn lemma_count_below_own_key(s: Seq<RawEntry>, i: int)
    requires
        sorted(s),
        0 <= i < s.len(),
    ensures
        count_below(s, s[i].0, false) == i,
        count_below(s, s[i].0, true) == i + 1,
        crate::table::has_key(s, s[i].0),
{
    let k = s[i].0;
    crate::table::lemma_count_below_inclusive(s, k);
    assert(crate::table::has_key(s, k));
    crate::table::lemma_sorted_keys_distinct(s, i, count_below(s, k, false) as int);
}

/// Tells whether `key` respects the lower end `lo`.
pub fn key_above_start(key: &[u8], lo: &Bound<Vec<u8>>) -> (r: bool)
    ensures
        r == above_start(key@, lo@),
{
    match lo {
        Bound::Included(k) => {
            proof {
                lemma_lex_le_iff_not_gt(k@, key@);
            }
            match compare(key, k.as_slice()) {
                KeyOrder::Less => false,
                _ => true,
            }
        },
        Bound::Excluded(k) => {
            proof {
                lemma_lex_le_iff_not_gt(key@, k@);
            }
            match compare(key, k.as_slice()) {
                KeyOrder::Greater => true,
                _ => false,
            }
        },
        Bound::Unbounded => true,
    }
}

/// Tells whether `key` respects the upper end `hi`.
pub fn key_below_end(key: &[u8], hi: &Bound<Vec<u8>>) -> (r: bool)
    ensures
        r == below_end(key@, hi@),
{
    match hi {
        Bound::Included(k) => {
            proof {
                lemma_lex_le_iff_not_gt(key@, k@);
            }
            match compare(key, k.as_slice()) {
                KeyOrder::Greater => false,
                _ => true,
            }
        },
        Bound::Excluded(k) => {
            proof {
                lemma_lex_le_iff_not_gt(k@, key@);
            }
            match compare(key, k.as_slice()) {
                KeyOrder::Less => true,
                _ => false,
            }
        },
        Bound::Unbounded => true,
    }
}

/// What encoding one end of a typed interval gives.
pub open spec fn encoded_bound<KC: BytesEncode>(b: Bound<<KC::EItem as View>::V>) -> Result<
    Bound<Seq<u8>>,
    Error,
> {
    match b {
        Bound::Included(x) => match KC::encode_spec(x) {
            Ok(bytes) => Ok(Bound::Included(bytes)),
            Err(e) => Err(Error::Encoding(e)),
        },
        Bound::Excluded(x) => match KC::encode_spec(x) {
            Ok(bytes) => Ok(Bound::Excluded(bytes)),
            Err(e) => Err(Error::Encoding(e)),
        },
        Bound::Unbounded => Ok(Bound::Unbounded),
    }
}

/// Encodes one end of a typed interval with the key codec.
pub fn encode_bound<KC: BytesEncode>(b: &Bound<&KC::EItem>) -> (r: Result<Bound<Vec<u8>>, Error>)
    ensures
        match r {
            Ok(eb) => encoded_bound::<KC>(b@) == Ok::<Bound<Seq<u8>>, Error>(eb@),
            Err(e) => encoded_bound::<KC>(b@) == Err::<Bound<Seq<u8>>, Error>(e),
        },
{
    match b {
        Bound::Included(x) => match KC::bytes_encode(x) {
            Ok(bytes) => Ok(Bound::Included(bytes)),
            Err(e) => Err(Error::Encoding(e)),
        },
        Bound::Excluded(x) => match KC::bytes_encode(x) {
            Ok(bytes) => Ok(Bound::Excluded(bytes)),
            Err(e) => Err(Error::Encoding(e)),
        },
        Bound::Unbounded => Ok(Bound::Unbounded),
    }
}

/// The interval of a prefix, computed.
pub fn prefix_bounds(prefix: Vec<u8>) -> (r: (Bound<Vec<u8>>, Bound<Vec<u8>>))
    ensures
        r.0@ == prefix_start(prefix@),
        r.1@ == prefix_end(prefix@),
{
    let end = match successor_of(prefix.as_slice()) {
        Some(q) => Bound::Excluded(q),
        None => Bound::Unbounded,
    };
    (Bound::Included(prefix), end)
}

} // verus!
