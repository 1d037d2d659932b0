//! One table: byte-string entries kept in strictly increasing key order.

use crate::bytes::{
    compare, lemma_lex_asymmetric, lemma_lex_irreflexive, lemma_lex_le_iff_not_gt,
    lemma_lex_le_lt_transitive, lemma_lex_lt_le_transitive, lemma_lex_total, lemma_lex_transitive,
    lex_lt, KeyOrder,
};
use vstd::prelude::*;
use vstd::slice::slice_to_vec;

verus! {

/// A raw entry as contracts see it: key bytes and value bytes.
pub type RawEntry = (Seq<u8>, Seq<u8>);

/// Keys strictly increase along `s`.
pub open spec fn sorted(s: Seq<RawEntry>) -> bool {
    forall|i: int, j: int| 0 <= i < j < s.len() ==> lex_lt(#[trigger] s[i].0, #[trigger] s[j].0)
}

/// What every table is: sorted, and no longer than a machine can index.
pub open spec fn table_ok(s: Seq<RawEntry>) -> bool {
    sorted(s) && s.len() <= usize::MAX
}

/// `key` lies below `k`; with `inclusive`, `k` itself counts too.
pub open spec fn below(key: Seq<u8>, k: Seq<u8>, inclusive: bool) -> bool {
    lex_lt(key, k) || (inclusive && key == k)
}

/// Number of entries of `s` whose key lies below `k`.
pub open spec fn count_below(s: Seq<RawEntry>, k: Seq<u8>, inclusive: bool) -> nat
    decreases s.len(),
{
    if s.len() == 0 {
        0
    } else {
        count_below(s.drop_last(), k, inclusive) + if below(s.last().0, k, inclusive) {
            1nat
        } else {
            0nat
        }
    }
}

/// Some entry of `s` has the key `k`.
pub open spec fn has_key(s: Seq<RawEntry>, k: Seq<u8>) -> bool {
    exists|i: int| 0 <= i < s.len() && #[trigger] s[i].0 == k
}

/// The entries of `s` as a map from key to value.
pub open spec fn to_map(s: Seq<RawEntry>) -> Map<Seq<u8>, Seq<u8>> {
    Map::new(
        |k: Seq<u8>| has_key(s, k),
        |k: Seq<u8>| s[choose|i: int| 0 <= i < s.len() && #[trigger] s[i].0 == k].1,
    )
}

/// In a sorted sequence no key occurs twice.
pub proof fn lemma_sorted_keys_distinct(s: Seq<RawEntry>, i: int, j: int)
    requires
        sorted(s),
        0 <= i < s.len(),
        0 <= j < s.len(),
        s[i].0 == s[j].0,
    ensures
        i == j,
{
    lemma_lex_irreflexive(s[i].0);
}

/// The map of a sorted sequence holds each of its entries.
pub proof fn lemma_to_map_entry(s: Seq<RawEntry>, i: int)
    requires
        sorted(s),
        0 <= i < s.len(),
    ensures
        to_map(s).contains_key(s[i].0),
        to_map(s)[s[i].0] == s[i].1,
{
    let k = s[i].0;
    let j = choose|j: int| 0 <= j < s.len() && #[trigger] s[j].0 == k;
    lemma_sorted_keys_distinct(s, i, j);
}

/// In a sorted sequence the keys below `k` are exactly those of the first
/// `count_below` entries.
pub proof fn lemma_count_below_splits(s: Seq<RawEntry>, k: Seq<u8>, inclusive: bool)
    requires
        sorted(s),
    ensures
        count_below(s, k, inclusive) <= s.len(),
        forall|j: int|
            0 <= j < count_below(s, k, inclusive) ==> below(#[trigger] s[j].0, k, inclusive),
        forall|j: int|
            count_below(s, k, inclusive) <= j < s.len() ==> !below(#[trigger] s[j].0, k, inclusive),
    decreases s.len(),
{
    if s.len() > 0 {
        let t = s.drop_last();
        assert forall|i: int, j: int| 0 <= i < j < t.len() implies lex_lt(
            #[trigger] t[i].0,
            #[trigger] t[j].0,
        ) by {
            assert(t[i] == s[i] && t[j] == s[j]);
        }
        lemma_count_below_splits(t, k, inclusive);
        let c = count_below(t, k, inclusive) as int;
        assert forall|j: int| 0 <= j < t.len() implies t[j] == s[j] by {}
        if below(s.last().0, k, inclusive) {
            // every earlier key is smaller than the last one, hence below `k` too
            assert forall|j: int| 0 <= j < s.len() implies below(
                #[trigger] s[j].0,
                k,
                inclusive,
            ) by {
                if j < s.len() - 1 {
                    assert(lex_lt(s[j].0, s[s.len() - 1].0));
                    lemma_lex_lt_le_transitive(s[j].0, s.last().0, k);
                }
            }
            if c < t.len() {
                assert(!below(t[c].0, k, inclusive));
                assert(false);
            }
        }
    }
}

/// The converse: an index that splits a sorted sequence into keys below `k`
/// and keys not below `k` is `count_below`.
pub proof fn lemma_count_below_unique(s: Seq<RawEntry>, k: Seq<u8>, inclusive: bool, i: int)
    requires
        sorted(s),
        0 <= i <= s.len(),
        forall|j: int| 0 <= j < i ==> below(#[trigger] s[j].0, k, inclusive),
        forall|j: int| i <= j < s.len() ==> !below(#[trigger] s[j].0, k, inclusive),
    ensures
        count_below(s, k, inclusive) == i,
{
    lemma_count_below_splits(s, k, inclusive);
    let c = count_below(s, k, inclusive) as int;
    if c < i {
        assert(below(s[c].0, k, inclusive));
    } else if i < c {
        assert(below(s[i].0, k, inclusive));
    }
}

/// Counting with `k` included passes at most one more entry, the one with
/// the key `k`.
pub proof fn lemma_count_below_inclusive(s: Seq<RawEntry>, k: Seq<u8>)
    requires
        sorted(s),
    ensures
        count_below(s, k, true) == count_below(s, k, false) + if has_key(s, k) {
            1nat
        } else {
            0nat
        },
        has_key(s, k) <==> (count_below(s, k, false) < s.len()
            && s[count_below(s, k, false) as int].0 == k),
{
    lemma_count_below_splits(s, k, false);
    let c = count_below(s, k, false) as int;
    assert forall|j: int| 0 <= j < c implies below(#[trigger] s[j].0, k, true) by {}
    if c < s.len() && s[c].0 == k {
        assert forall|j: int| c + 1 <= j < s.len() implies !below(#[trigger] s[j].0, k, true) by {
            assert(lex_lt(s[c].0, s[j].0));
            lemma_lex_asymmetric(k, s[j].0);
        }
        assert(below(s[c].0, k, true));
        lemma_count_below_unique(s, k, true, c + 1);
    } else {
        assert forall|j: int| c <= j < s.len() implies !below(#[trigger] s[j].0, k, true) by {
            if s[j].0 == k {
                if j > c {
                    assert(lex_lt(s[c].0, s[j].0));
                    assert(below(s[c].0, k, false));
                }
            }
        }
        lemma_count_below_unique(s, k, true, c);
        if has_key(s, k) {
            let j = choose|j: int| 0 <= j < s.len() && #[trigger] s[j].0 == k;
            if j < c {
                assert(below(s[j].0, k, false));
                lemma_lex_irreflexive(k);
            } else {
                assert(!below(s[j].0, k, true));
            }
        }
    }
}

/// `k` may be appended to `s`: it is above every key of `s`.
pub open spec fn appendable(s: Seq<RawEntry>, k: Seq<u8>) -> bool {
    s.len() == 0 || lex_lt(s.last().0, k)
}

/// Putting `(k, v)` at its place in a sorted sequence: over the entry with
/// the key `k` if there is one, else before the first larger key.
pub open spec fn put_entry(s: Seq<RawEntry>, k: Seq<u8>, v: Seq<u8>) -> Seq<RawEntry> {
    let i = count_below(s, k, false) as int;
    if has_key(s, k) {
        s.update(i, (k, v))
    } else {
        s.insert(i, (k, v))
    }
}

/// Taking the entry with the key `k` out of a sorted sequence.
pub open spec fn remove_entry(s: Seq<RawEntry>, k: Seq<u8>) -> Seq<RawEntry> {
    if has_key(s, k) {
        s.remove(count_below(s, k, false) as int)
    } else {
        s
    }
}

/// `put_entry` keeps the order and inserts into the map.
pub proof fn lemma_put_entry(s: Seq<RawEntry>, k: Seq<u8>, v: Seq<u8>)
    requires
        sorted(s),
    ensures
        sorted(put_entry(s, k, v)),
        to_map(put_entry(s, k, v)) == to_map(s).insert(k, v),
{
    lemma_count_below_splits(s, k, false);
    lemma_count_below_inclusive(s, k);
    let i = count_below(s, k, false) as int;
    let t = put_entry(s, k, v);
    if has_key(s, k) {
        assert forall|a: int, b: int| 0 <= a < b < t.len() implies lex_lt(
            #[trigger] t[a].0,
            #[trigger] t[b].0,
        ) by {
            assert(t[a].0 == s[a].0 && t[b].0 == s[b].0);
        }
        assert forall|q: Seq<u8>| has_key(t, q) <==> (q == k || has_key(s, q)) by {
            if has_key(t, q) {
                let j = choose|j: int| 0 <= j < t.len() && #[trigger] t[j].0 == q;
                assert(s[j].0 == q);
            }
            if q == k || has_key(s, q) {
                let j = if q == k {
                    i
                } else {
                    choose|j: int| 0 <= j < s.len() && #[trigger] s[j].0 == q
                };
                assert(t[j].0 == q);
            }
        }
        assert forall|q: Seq<u8>| has_key(t, q) implies to_map(t)[q] == to_map(s).insert(
            k,
            v,
        )[q] by {
            let j = choose|j: int| 0 <= j < t.len() && #[trigger] t[j].0 == q;
            lemma_to_map_entry(t, j);
            if q != k {
                assert(s[j].0 == q);
                lemma_to_map_entry(s, j);
            } else {
                lemma_sorted_keys_distinct(t, i, j);
            }
        }
    } else {
        assert forall|a: int, b: int| 0 <= a < b < t.len() implies lex_lt(
            #[trigger] t[a].0,
            #[trigger] t[b].0,
        ) by {
            if b < i {
                assert(t[a] == s[a] && t[b] == s[b]);
            } else if b == i {
                assert(t[a] == s[a]);
                assert(below(s[a].0, k, false));
            } else if a < i {
                assert(t[a] == s[a] && t[b] == s[b - 1]);
                assert(below(s[a].0, k, false));
                assert(!below(s[b - 1].0, k, false));
                lemma_lex_total(s[b - 1].0, k);
                assert(s[b - 1].0 != k);
                lemma_lex_transitive(s[a].0, k, s[b - 1].0);
            } else if a == i {
                assert(t[b] == s[b - 1]);
                assert(!below(s[b - 1].0, k, false));
                lemma_lex_total(s[b - 1].0, k);
                assert(s[b - 1].0 != k);
            } else {
                assert(t[a] == s[a - 1] && t[b] == s[b - 1]);
            }
        }
        assert forall|q: Seq<u8>| has_key(t, q) <==> (q == k || has_key(s, q)) by {
            if has_key(t, q) {
                let j = choose|j: int| 0 <= j < t.len() && #[trigger] t[j].0 == q;
                if j < i {
                    assert(s[j].0 == q);
                } else if j > i {
                    assert(s[j - 1].0 == q);
                }
            }
            if q == k {
                assert(t[i].0 == q);
            } else if has_key(s, q) {
                let j = choose|j: int| 0 <= j < s.len() && #[trigger] s[j].0 == q;
                if j < i {
                    assert(t[j].0 == q);
                } else {
                    assert(t[j + 1].0 == q);
                }
            }
        }
        assert forall|q: Seq<u8>| has_key(t, q) implies to_map(t)[q] == to_map(s).insert(
            k,
            v,
        )[q] by {
            let j = choose|j: int| 0 <= j < t.len() && #[trigger] t[j].0 == q;
            lemma_to_map_entry(t, j);
            if j < i {
                assert(s[j].0 == q);
                lemma_to_map_entry(s, j);
            } else if j > i {
                assert(s[j - 1].0 == q);
                lemma_to_map_entry(s, j - 1);
            }
        }
    }
    assert(to_map(t) =~= to_map(s).insert(k, v));
}

/// Removing the entry at `i` keeps the order and removes its key from the map.
pub proof fn lemma_remove_at(s: Seq<RawEntry>, i: int)
    requires
        sorted(s),
        0 <= i < s.len(),
    ensures
        sorted(s.remove(i)),
        to_map(s.remove(i)) == to_map(s).remove(s[i].0),
{
    let t = s.remove(i);
    let k = s[i].0;
    assert forall|a: int, b: int| 0 <= a < b < t.len() implies lex_lt(
        #[trigger] t[a].0,
        #[trigger] t[b].0,
    ) by {
        let a0 = if a < i { a } else { a + 1 };
        let b0 = if b < i { b } else { b + 1 };
        assert(t[a] == s[a0] && t[b] == s[b0]);
    }
    assert forall|q: Seq<u8>| has_key(t, q) <==> (q != k && has_key(s, q)) by {
        if has_key(t, q) {
            let j = choose|j: int| 0 <= j < t.len() && #[trigger] t[j].0 == q;
            let j0 = if j < i { j } else { j + 1 };
            assert(s[j0].0 == q);
            if q == k {
                lemma_sorted_keys_distinct(s, i, j0);
            }
        }
        if q != k && has_key(s, q) {
            let j = choose|j: int| 0 <= j < s.len() && #[trigger] s[j].0 == q;
            let j1 = if j < i { j } else { j - 1 };
            assert(t[j1].0 == q);
        }
    }
    assert forall|q: Seq<u8>| has_key(t, q) implies to_map(t)[q] == to_map(s).remove(k)[q] by {
        let j = choose|j: int| 0 <= j < t.len() && #[trigger] t[j].0 == q;
        let j0 = if j < i { j } else { j + 1 };
        lemma_to_map_entry(t, j);
        assert(s[j0].0 == q);
        lemma_to_map_entry(s, j0);
    }
    assert(to_map(t) =~= to_map(s).remove(k));
}

/// `remove_entry` keeps the order and removes from the map.
pub proof fn lemma_remove_entry(s: Seq<RawEntry>, k: Seq<u8>)
    requires
        sorted(s),
    ensures
        sorted(remove_entry(s, k)),
        to_map(remove_entry(s, k)) == to_map(s).remove(k),
{
    lemma_count_below_inclusive(s, k);
    if has_key(s, k) {
        lemma_remove_at(s, count_below(s, k, false) as int);
    } else {
        assert(to_map(s) =~= to_map(s).remove(k));
    }
}

/// Replacing the value at `i` keeps the order and overwrites in the map.
pub proof fn lemma_update_value(s: Seq<RawEntry>, i: int, v: Seq<u8>)
    requires
        sorted(s),
        0 <= i < s.len(),
    ensures
        sorted(s.update(i, (s[i].0, v))),
        s.update(i, (s[i].0, v)) == put_entry(s, s[i].0, v),
        to_map(s.update(i, (s[i].0, v))) == to_map(s).insert(s[i].0, v),
{
    let k = s[i].0;
    lemma_count_below_inclusive(s, k);
    assert(has_key(s, k));
    lemma_sorted_keys_distinct(s, i, count_below(s, k, false) as int);
    lemma_put_entry(s, k, v);
}

/// A sorted sequence is determined by its map.
pub proof fn lemma_sorted_unique(s: Seq<RawEntry>, t: Seq<RawEntry>)
    requires
        sorted(s),
        sorted(t),
        to_map(s) == to_map(t),
    ensures
        s == t,
    decreases s.len(),
{
    if s.len() == 0 {
        if t.len() > 0 {
            lemma_to_map_entry(t, 0);
            assert(has_key(s, t[0].0));
        }
        assert(s =~= t);
    } else {
        let n = s.len() - 1;
        lemma_to_map_entry(s, n);
        assert(has_key(t, s[n].0));
        let j = choose|j: int| 0 <= j < t.len() && #[trigger] t[j].0 == s[n].0;
        lemma_to_map_entry(t, j);
        if j < t.len() - 1 {
            // the last key of `t` is larger still, yet must occur in `s`
            let m = t.len() - 1;
            lemma_to_map_entry(t, m);
            assert(has_key(s, t[m].0));
            let i = choose|i: int| 0 <= i < s.len() && #[trigger] s[i].0 == t[m].0;
            assert(lex_lt(t[j].0, t[m].0));
            if i < n {
                assert(lex_lt(s[i].0, s[n].0));
                lemma_lex_asymmetric(s[i].0, s[n].0);
            } else {
                lemma_lex_irreflexive(s[n].0);
            }
            assert(false);
        }
        lemma_remove_at(s, n);
        lemma_remove_at(t, j);
        assert(s.remove(n) =~= s.drop_last());
        assert(t.remove(j) =~= t.drop_last());
        lemma_sorted_unique(s.drop_last(), t.drop_last());
        assert(s =~= s.drop_last().push(s[n]));
        assert(t =~= t.drop_last().push(t[j]));
    }
}

/// One entry of a table.
struct Entry {
    key: Vec<u8>,
    value: Vec<u8>,
}

/// A table: its entries in strictly increasing key order.
pub struct Table {
    entries: Vec<Entry>,
}

impl View for Table {
    type V = Seq<RawEntry>;

    closed spec fn view(&self) -> Seq<RawEntry> {
        Seq::new(self.entries@.len(), |i: int| (self.entries@[i].key@, self.entries@[i].value@))
    }
}

impl Table {
    /// The entries are in strictly increasing key order.
    pub open spec fn wf(&self) -> bool {
        table_ok(self@)
    }

    /// The table as a map from key to value.
    pub open spec fn map(&self) -> Map<Seq<u8>, Seq<u8>> {
        to_map(self@)
    }

    /// An empty table.
    pub fn new() -> (t: Table)
        ensures
            t@ == Seq::<RawEntry>::empty(),
            t.wf(),
    {
        let t = Table { entries: Vec::new() };
        assert(t@ =~= Seq::<RawEntry>::empty());
        t
    }

    /// Number of entries.
    pub fn len(&self) -> (n: usize)
        ensures
            n == self@.len(),
    {
        self.entries.len()
    }

    /// Key and value of the entry at `i`.
    pub fn entry(&self, i: usize) -> (r: (&[u8], &[u8]))
        requires
            i < self@.len(),
        ensures
            r.0@ == self@[i as int].0,
            r.1@ == self@[i as int].1,
    {
        let e = &self.entries[i];
        (e.key.as_slice(), e.value.as_slice())
    }

    /// Index of the first entry whose key is not below `key`; the number of
    /// entries if there is none.
    pub fn seek(&self, key: &[u8]) -> (i: usize)
        requires
            self.wf(),
        ensures
            i == count_below(self@, key@, false),
            i <= self@.len(),
    {
        let mut lo: usize = 0;
        let mut hi: usize = self.entries.len();
        while lo < hi
            invariant
                self.wf(),
                0 <= lo <= hi <= self@.len(),
                self@.len() == self.entries@.len(),
                forall|j: int| 0 <= j < lo ==> below(#[trigger] self@[j].0, key@, false),
                forall|j: int| hi <= j < self@.len() ==> !below(#[trigger] self@[j].0, key@, false),
            decreases hi - lo,
        {
            let mid = lo + (hi - lo) / 2;
            let ghost mk = self@[mid as int].0;
            match compare(self.entries[mid].key.as_slice(), key) {
                KeyOrder::Less => {
                    assert forall|j: int| 0 <= j < mid + 1 implies below(
                        #[trigger] self@[j].0,
                        key@,
                        false,
                    ) by {
                        if j < mid {
                            assert(lex_lt(self@[j].0, self@[mid as int].0));
                            lemma_lex_transitive(self@[j].0, mk, key@);
                        }
                    }
                    lo = mid + 1;
                },
                _ => {
                    assert forall|j: int| mid <= j < self@.len() implies !below(
                        #[trigger] self@[j].0,
                        key@,
                        false,
                    ) by {
                        lemma_lex_le_iff_not_gt(key@, mk);
                        if j > mid {
                            assert(lex_lt(self@[mid as int].0, self@[j].0));
                            lemma_lex_le_lt_transitive(key@, mk, self@[j].0);
                            lemma_lex_asymmetric(key@, self@[j].0);
                        }
                    }
                    hi = mid;
                },
            }
        }
        proof {
            lemma_count_below_unique(self@, key@, false, lo as int);
        }
        lo
    }

    /// The value stored under `key`, if any.
    pub fn get(&self, key: &[u8]) -> (r: Option<&[u8]>)
        requires
            self.wf(),
        ensures
            match r {
                Some(v) => self.map().contains_key(key@) && self.map()[key@] == v@,
                None => !self.map().contains_key(key@),
            },
    {
        let i = self.seek(key);
        proof {
            lemma_count_below_inclusive(self@, key@);
        }
        if i < self.entries.len() {
            let (k, v) = self.entry(i);
            match compare(k, key) {
                KeyOrder::Equal => {
                    proof {
                        lemma_to_map_entry(self@, i as int);
                    }
                    Some(v)
                },
                _ => {
                    proof {
                        if k@ == key@ {
                            lemma_lex_irreflexive(k@);
                        }
                    }
                    None
                },
            }
        } else {
            None
        }
    }

    /// Stores `value` under `key`, over any value that was there.
    pub fn put(&mut self, key: &[u8], value: &[u8])
        requires
            old(self).wf(),
        ensures
            final(self).wf(),
            final(self)@ == put_entry(old(self)@, key@, value@),
            final(self).map() == old(self).map().insert(key@, value@),
    {
        let i = self.seek(key);
        proof {
            lemma_count_below_inclusive(self@, key@);
            lemma_put_entry(self@, key@, value@);
        }
        let mut found = false;
        if i < self.entries.len() {
            match compare(self.entries[i].key.as_slice(), key) {
                KeyOrder::Equal => {
                    found = true;
                },
                _ => {
                    proof {
                        if self@[i as int].0 == key@ {
                            lemma_lex_irreflexive(key@);
                        }
                    }
                },
            }
        }
        let ghost before = self@;
        if found {
            self.entries[i].value = slice_to_vec(value);
            assert(self@ =~= before.update(i as int, (key@, value@)));
        } else {
            self.entries.insert(i, Entry { key: slice_to_vec(key), value: slice_to_vec(value) });
            assert(self@ =~= before.insert(i as int, (key@, value@)));
        }
        let _ = self.entries.len();
    }

    /// Adds `(key, value)` at the end if `key` is above every key of the
    /// table, and tells whether it did.
    pub fn append(&mut self, key: &[u8], value: &[u8]) -> (ok: bool)
        requires
            old(self).wf(),
        ensures
            final(self).wf(),
            ok == appendable(old(self)@, key@),
            ok ==> final(self)@ == old(self)@.push((key@, value@)),
            ok ==> final(self)@ == put_entry(old(self)@, key@, value@),
            ok ==> final(self).map() == old(self).map().insert(key@, value@),
            !ok ==> final(self)@ == old(self)@,
    {
        let n = self.entries.len();
        if n > 0 {
            match compare(self.entries[n - 1].key.as_slice(), key) {
                KeyOrder::Less => {},
                KeyOrder::Equal => {
                    proof {
                        lemma_lex_irreflexive(key@);
                    }
                    return false;
                },
                KeyOrder::Greater => {
                    proof {
                        lemma_lex_asymmetric(key@, self@.last().0);
                    }
                    return false;
                },
            }
        }
        let ghost before = self@;
        proof {
            // nothing in the table is at or above `key`, so its place is the end
            assert forall|j: int| 0 <= j < before.len() implies below(
                #[trigger] before[j].0,
                key@,
                false,
            ) by {
                if j < before.len() - 1 {
                    assert(lex_lt(before[j].0, before[before.len() - 1].0));
                    lemma_lex_transitive(before[j].0, before.last().0, key@);
                }
            }
            lemma_count_below_unique(before, key@, false, before.len() as int);
            lemma_count_below_inclusive(before, key@);
            lemma_put_entry(before, key@, value@);
            assert(before.insert(before.len() as int, (key@, value@)) =~= before.push(
                (key@, value@),
            ));
        }
        self.entries.push(Entry { key: slice_to_vec(key), value: slice_to_vec(value) });
        assert(self@ =~= before.push((key@, value@)));
        let _ = self.entries.len();
        true
    }

    /// Replaces the value of the entry at `i`.
    pub fn set_value(&mut self, i: usize, value: &[u8])
        requires
            old(self).wf(),
            i < old(self)@.len(),
        ensures
            final(self).wf(),
            final(self)@ == old(self)@.update(i as int, (old(self)@[i as int].0, value@)),
            final(self).map() == old(self).map().insert(old(self)@[i as int].0, value@),
    {
        let ghost before = self@;
        proof {
            lemma_update_value(before, i as int, value@);
        }
        self.entries[i].value = slice_to_vec(value);
        assert(self@ =~= before.update(i as int, (before[i as int].0, value@)));
    }

    /// Removes the entry at `i`.
    pub fn remove_at(&mut self, i: usize)
        requires
            old(self).wf(),
            i < old(self)@.len(),
        ensures
            final(self).wf(),
            final(self)@ == old(self)@.remove(i as int),
            final(self).map() == old(self).map().remove(old(self)@[i as int].0),
    {
        let ghost before = self@;
        proof {
            lemma_remove_at(before, i as int);
        }
        let _ = self.entries.remove(i);
        assert(self@ =~= before.remove(i as int));
    }

    /// Removes the entry stored under `key` and tells whether there was one.
    pub fn remove(&mut self, key: &[u8]) -> (existed: bool)
        requires
            old(self).wf(),
        ensures
            final(self).wf(),
            existed == old(self).map().contains_key(key@),
            final(self)@ == remove_entry(old(self)@, key@),
            final(self).map() == old(self).map().remove(key@),
    {
        let i = self.seek(key);
        proof {
            lemma_count_below_inclusive(self@, key@);
            lemma_remove_entry(self@, key@);
        }
        if i < self.entries.len() {
            match compare(self.entries[i].key.as_slice(), key) {
                KeyOrder::Equal => {
                    self.remove_at(i);
                    true
                },
                _ => {
                    proof {
                        if self@[i as int].0 == key@ {
                            lemma_lex_irreflexive(key@);
                        }
                    }
                    false
                },
            }
        } else {
            false
        }
    }

    /// Removes every entry.
    pub fn clear(&mut self)
        ensures
            final(self).wf(),
            final(self)@ == Seq::<RawEntry>::empty(),
    {
        self.entries.clear();
        assert(self@ =~= Seq::<RawEntry>::empty());
    }

    /// A copy of the table.
    pub fn snapshot(&self) -> (t: Table)
        ensures
            t@ == self@,
            t@.len() <= usize::MAX,
    {
        let mut entries: Vec<Entry> = Vec::with_capacity(self.entries.len());
        let mut i: usize = 0;
        while i < self.entries.len()
            invariant
                0 <= i <= self.entries@.len(),
                entries@.len() == i,
                forall|j: int|
                    0 <= j < i ==> entries@[j].key@ == self.entries@[j].key@ && entries@[j].value@
                        == self.entries@[j].value@,
            decreases self.entries@.len() - i,
        {
            let e = &self.entries[i];
            entries.push(
                Entry {
                    key: slice_to_vec(e.key.as_slice()),
                    value: slice_to_vec(e.value.as_slice()),
                },
            );
            i += 1;
        }
        let t = Table { entries };
        assert(t@ =~= self@);
        let _ = t.entries.len();
        t
    }
}

} // verus!
