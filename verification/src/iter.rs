//! Iterators: lazy walks over a table, forward or backward, over all of it,
//! an interval or a prefix; read-only, or with leave to replace and delete
//! the entry last yielded.

use crate::bounds::{
    key_above_start, key_below_end, lemma_count_below_own_key, lemma_count_below_remove,
    lemma_count_below_update, lemma_lower_index, lemma_upper_index, lower_index, range_entries,
    span, upper_index, Bound,
};
use crate::bytes::{compare, KeyOrder};
use crate::codec::{BytesDecode, BytesEncode};
use crate::cursor::{entry_under, fits, place, raw_view, Position, RoCursor, RwCursor};
use crate::error::Error;
use crate::table::{lemma_count_below_inclusive, put_entry, remove_entry, sorted, RawEntry};
use std::marker::PhantomData;
use vstd::prelude::*;

verus! {

/// How far a walk has come.
#[derive(Clone, Copy, Debug, PartialEq, Eq, Structural)]
pub enum IterState {
    /// Nothing was asked for yet.
    Unstarted,
    /// The last step yielded the entry under the cursor, unless that entry
    /// has been deleted since.
    Positioned,
    /// The walk is over.
    Exhausted,
}

/// Index at which a forward walk goes on from `pos`.
pub open spec fn resume_after(pos: Position) -> int {
    match pos {
        Position::On(i) => i + 1,
        Position::Gap(i) => i as int,
        Position::Unset => 0,
    }
}

/// Index before which a backward walk goes on from `pos`.
pub open spec fn resume_before(pos: Position) -> int {
    match pos {
        Position::On(i) => i as int,
        Position::Gap(i) => i as int,
        Position::Unset => 0,
    }
}

/// The entries that a forward walk has yet to yield, in the order in which
/// it will yield them.
pub open spec fn forward_pending(
    s: Seq<RawEntry>,
    pos: Position,
    state: IterState,
    lo: Bound<Seq<u8>>,
    hi: Bound<Seq<u8>>,
) -> Seq<RawEntry> {
    match state {
        IterState::Unstarted => range_entries(s, lo, hi),
        IterState::Positioned => span(s, resume_after(pos), upper_index(s, hi)),
        IterState::Exhausted => Seq::empty(),
    }
}

/// The entries that a backward walk has yet to yield, in the order in which
/// it will yield them.
pub open spec fn backward_pending(
    s: Seq<RawEntry>,
    pos: Position,
    state: IterState,
    lo: Bound<Seq<u8>>,
    hi: Bound<Seq<u8>>,
) -> Seq<RawEntry> {
    match state {
        IterState::Unstarted => range_entries(s, lo, hi).reverse(),
        IterState::Positioned => span(s, lower_index(s, lo), resume_before(pos)).reverse(),
        IterState::Exhausted => Seq::empty(),
    }
}

/// A forward walk that is under way stands inside its interval.
pub open spec fn forward_ok(
    s: Seq<RawEntry>,
    pos: Position,
    state: IterState,
    hi: Bound<Seq<u8>>,
) -> bool {
    &&& sorted(s)
    &&& fits(pos, s.len() as int)
    &&& state is Positioned ==> !(pos is Unset)
    &&& state is Positioned ==> (pos matches Position::On(i) ==> i < upper_index(s, hi))
}

/// A backward walk that is under way stands inside its interval.
pub open spec fn backward_ok(
    s: Seq<RawEntry>,
    pos: Position,
    state: IterState,
    lo: Bound<Seq<u8>>,
) -> bool {
    &&& sorted(s)
    &&& fits(pos, s.len() as int)
    &&& state is Positioned ==> !(pos is Unset)
    &&& state is Positioned ==> (pos matches Position::On(i) ==> i >= lower_index(s, lo))
}

/// The entry last yielded, while it is still there.
pub open spec fn yielded(s: Seq<RawEntry>, pos: Position, state: IterState) -> Option<RawEntry> {
    if state is Positioned {
        entry_under(s, pos)
    } else {
        None
    }
}

/// One step of a walk: it hands out the first pending entry, which the walk
/// then stands on, and leaves the rest pending; or nothing when nothing is
/// pending.
pub open spec fn stepped(
    before: Seq<RawEntry>,
    after: Seq<RawEntry>,
    out: Option<RawEntry>,
    now: Option<RawEntry>,
) -> bool {
    &&& now == out
    &&& if before.len() == 0 {
        out is None && after == before
    } else {
        out == Some(before[0]) && after == before.skip(1)
    }
}

/// Advances a forward walk over the interval from `lo` to `hi` by one step.
pub fn forward_step<'t>(
    cursor: &mut RoCursor<'t>,
    state: &mut IterState,
    lo: &Bound<Vec<u8>>,
    hi: &Bound<Vec<u8>>,
) -> (r: Option<(&'t [u8], &'t [u8])>)
    requires
        old(cursor).wf(),
        forward_ok(old(cursor).entries(), old(cursor).position(), *old(state), hi@),
    ensures
        final(cursor).wf(),
        final(cursor).txn() == old(cursor).txn(),
        final(cursor).dbi() == old(cursor).dbi(),
        forward_ok(final(cursor).entries(), final(cursor).position(), *final(state), hi@),
        stepped(
            forward_pending(old(cursor).entries(), old(cursor).position(), *old(state), lo@, hi@),
            forward_pending(
                final(cursor).entries(),
                final(cursor).position(),
                *final(state),
                lo@,
                hi@,
            ),
            raw_view(r),
            yielded(final(cursor).entries(), final(cursor).position(), *final(state)),
        ),
{
    let ghost s = cursor.entries();
    let ghost len = s.len() as int;
    let ghost target = match *state {
        IterState::Unstarted => lower_index(s, lo@),
        _ => resume_after(cursor.position()),
    };
    proof {
        lemma_lower_index(s, lo@);
        lemma_upper_index(s, hi@);
    }
    let found = match *state {
        IterState::Exhausted => {
            return None;
        },
        IterState::Unstarted => match lo {
            Bound::Unbounded => cursor.move_to_first(),
            Bound::Included(k) => cursor.move_to_key_at_or_after(k.as_slice()),
            Bound::Excluded(k) => {
                proof {
                    lemma_count_below_inclusive(s, k@);
                }
                let at = cursor.move_to_key_at_or_after(k.as_slice());
                let exact = match at {
                    Ok(Some((key, _))) => match compare(key, k.as_slice()) {
                        KeyOrder::Equal => true,
                        _ => false,
                    },
                    _ => false,
                };
                proof {
                    if !exact && cursor.position() is On {
                        let i = cursor.position()->On_0 as int;
                        if s[i].0 == k@ {
                            crate::bytes::lemma_lex_irreflexive(k@);
                        }
                    }
                }
                if exact {
                    cursor.move_to_next()
                } else {
                    at
                }
            },
        },
        IterState::Positioned => cursor.move_to_next(),
    };
    assert(cursor.position() == place(target, len));
    assert(found matches Ok(o) && raw_view(o) == entry_under(s, cursor.position()));
    let ghost before = span(s, target, upper_index(s, hi@));
    match found {
        Ok(Some((key, value))) => {
            assert(key@ == s[target].0);
            if key_below_end(key, hi) {
                *state = IterState::Positioned;
                assert(target < upper_index(s, hi@));
                assert(span(s, target + 1, upper_index(s, hi@)) =~= before.skip(1));
                Some((key, value))
            } else {
                *state = IterState::Exhausted;
                assert(target >= upper_index(s, hi@));
                assert(before =~= Seq::<RawEntry>::empty());
                None
            }
        },
        _ => {
            *state = IterState::Exhausted;
            assert(before =~= Seq::<RawEntry>::empty());
            None
        },
    }
}

/// Advances a backward walk over the interval from `lo` to `hi` by one step.
pub fn backward_step<'t>(
    cursor: &mut RoCursor<'t>,
    state: &mut IterState,
    lo: &Bound<Vec<u8>>,
    hi: &Bound<Vec<u8>>,
) -> (r: Option<(&'t [u8], &'t [u8])>)
    requires
        old(cursor).wf(),
        backward_ok(old(cursor).entries(), old(cursor).position(), *old(state), lo@),
    ensures
        final(cursor).wf(),
        final(cursor).txn() == old(cursor).txn(),
        final(cursor).dbi() == old(cursor).dbi(),
        backward_ok(final(cursor).entries(), final(cursor).position(), *final(state), lo@),
        stepped(
            backward_pending(old(cursor).entries(), old(cursor).position(), *old(state), lo@, hi@),
            backward_pending(
                final(cursor).entries(),
                final(cursor).position(),
                *final(state),
                lo@,
                hi@,
            ),
            raw_view(r),
            yielded(final(cursor).entries(), final(cursor).position(), *final(state)),
        ),
{
    let ghost s = cursor.entries();
    let ghost len = s.len() as int;
    let ghost to = match *state {
        IterState::Unstarted => upper_index(s, hi@),
        _ => resume_before(cursor.position()),
    };
    proof {
        lemma_lower_index(s, lo@);
        lemma_upper_index(s, hi@);
    }
    let found = match *state {
        IterState::Exhausted => {
            return None;
        },
        IterState::Unstarted => match hi {
            Bound::Unbounded => cursor.move_to_last(),
            Bound::Included(k) => {
                proof {
                    lemma_count_below_inclusive(s, k@);
                }
                let at = cursor.move_to_key_at_or_after(k.as_slice());
                let exact = match at {
                    Ok(Some((key, _))) => match compare(key, k.as_slice()) {
                        KeyOrder::Equal => true,
                        _ => false,
                    },
                    _ => false,
                };
                proof {
                    if !exact && cursor.position() is On {
                        let i = cursor.position()->On_0 as int;
                        if s[i].0 == k@ {
                            crate::bytes::lemma_lex_irreflexive(k@);
                        }
                    }
                }
                if exact {
                    at
                } else {
                    cursor.move_to_prev()
                }
            },
            Bound::Excluded(k) => {
                match cursor.move_to_key_at_or_after(k.as_slice()) {
                    Ok(_) => cursor.move_to_prev(),
                    Err(e) => Err(e),
                }
            },
        },
        IterState::Positioned => cursor.move_to_prev(),
    };
    assert(cursor.position() == place(to - 1, len));
    assert(found matches Ok(o) && raw_view(o) == entry_under(s, cursor.position()));
    let ghost lower = lower_index(s, lo@);
    let ghost before = span(s, lower, to).reverse();
    match found {
        Ok(Some((key, value))) => {
            assert(key@ == s[to - 1].0);
            if key_above_start(key, lo) {
                *state = IterState::Positioned;
                assert(to - 1 >= lower);
                assert(span(s, lower, to - 1).reverse() =~= before.skip(1));
                Some((key, value))
            } else {
                *state = IterState::Exhausted;
                assert(to - 1 < lower);
                assert(before =~= Seq::<RawEntry>::empty());
                None
            }
        },
        _ => {
            *state = IterState::Exhausted;
            assert(before =~= Seq::<RawEntry>::empty());
            None
        },
    }
}


/// What decoding the raw entry `e` with the codecs `KC` and `DC` gives: the
/// typed pair, or the first decoding error, the key's before the value's.
pub open spec fn decoded<KC: BytesDecode, DC: BytesDecode>(
    e: RawEntry,
    r: Result<(KC::DItem, DC::DItem), Error>,
) -> bool {
    match KC::decode_spec(e.0) {
        Err(x) => (r matches Err(err) && err == Error::Decoding(x)),
        Ok(k) => match DC::decode_spec(e.1) {
            Err(x) => (r matches Err(err) && err == Error::Decoding(x)),
            Ok(v) => (r matches Ok(pair) && pair.0@ == k && pair.1@ == v),
        },
    }
}

/// What a step hands out: the first pending entry, decoded, or nothing
/// when nothing is pending.
pub open spec fn yields<KC: BytesDecode, DC: BytesDecode>(
    pending: Seq<RawEntry>,
    r: Option<Result<(KC::DItem, DC::DItem), Error>>,
) -> bool {
    if pending.len() == 0 {
        r is None
    } else {
        (r matches Some(x) && decoded::<KC, DC>(pending[0], x))
    }
}

/// What stays pending after a step.
pub open spec fn rest(pending: Seq<RawEntry>) -> Seq<RawEntry> {
    if pending.len() == 0 {
        pending
    } else {
        pending.skip(1)
    }
}

/// The first pending entry, if any.
pub open spec fn first_of(pending: Seq<RawEntry>) -> Option<RawEntry> {
    if pending.len() == 0 {
        None
    } else {
        Some(pending[0])
    }
}

/// Decodes a raw entry with the codecs `KC` and `DC`.
pub fn decode_entry<KC: BytesDecode, DC: BytesDecode>(key: &[u8], value: &[u8]) -> (r: Result<
    (KC::DItem, DC::DItem),
    Error,
>)
    ensures
        decoded::<KC, DC>((key@, value@), r),
{
    match KC::bytes_decode(key) {
        Err(e) => Err(Error::Decoding(e)),
        Ok(k) => match DC::bytes_decode(value) {
            Err(e) => Err(Error::Decoding(e)),
            Ok(v) => Ok((k, v)),
        },
    }
}

/// Deleting the entry that a forward walk stands on leaves pending what was.
pub proof fn lemma_forward_delete(s: Seq<RawEntry>, i: int, hi: Bound<Seq<u8>>)
    requires
        sorted(s),
        0 <= i < upper_index(s, hi),
    ensures
        i < s.len(),
        sorted(s.remove(i)),
        s.remove(i) == remove_entry(s, s[i].0),
        span(s.remove(i), i, upper_index(s.remove(i), hi)) == span(s, i + 1, upper_index(s, hi)),
{
    lemma_upper_index(s, hi);
    crate::table::lemma_remove_at(s, i);
    lemma_count_below_own_key(s, i);
    let t = s.remove(i);
    match hi {
        Bound::Included(k) => {
            lemma_count_below_remove(s, i, k, true);
        },
        Bound::Excluded(k) => {
            lemma_count_below_remove(s, i, k, false);
        },
        Bound::Unbounded => {},
    }
    assert(upper_index(t, hi) == upper_index(s, hi) - 1);
    assert(span(t, i, upper_index(t, hi)) =~= span(s, i + 1, upper_index(s, hi)));
}

/// Deleting the entry that a backward walk stands on leaves pending what was.
pub proof fn lemma_backward_delete(s: Seq<RawEntry>, i: int, lo: Bound<Seq<u8>>)
    requires
        sorted(s),
        lower_index(s, lo) <= i < s.len(),
    ensures
        sorted(s.remove(i)),
        s.remove(i) == remove_entry(s, s[i].0),
        lower_index(s.remove(i), lo) == lower_index(s, lo),
        span(s.remove(i), lower_index(s, lo), i) == span(s, lower_index(s, lo), i),
{
    lemma_lower_index(s, lo);
    crate::table::lemma_remove_at(s, i);
    lemma_count_below_own_key(s, i);
    let t = s.remove(i);
    match lo {
        Bound::Included(k) => {
            lemma_count_below_remove(s, i, k, false);
            crate::table::lemma_count_below_splits(s, k, false);
        },
        Bound::Excluded(k) => {
            lemma_count_below_remove(s, i, k, true);
            crate::table::lemma_count_below_splits(s, k, true);
        },
        Bound::Unbounded => {},
    }
    assert(span(t, lower_index(s, lo), i) =~= span(s, lower_index(s, lo), i));
}

/// Replacing the value of the entry at `i` moves no bound and changes no
/// other entry.
pub proof fn lemma_replace_keeps(
    s: Seq<RawEntry>,
    i: int,
    v: Seq<u8>,
    lo: Bound<Seq<u8>>,
    hi: Bound<Seq<u8>>,
)
    requires
        sorted(s),
        0 <= i < s.len(),
    ensures
        sorted(s.update(i, (s[i].0, v))),
        s.update(i, (s[i].0, v)) == put_entry(s, s[i].0, v),
        lower_index(s.update(i, (s[i].0, v)), lo) == lower_index(s, lo),
        upper_index(s.update(i, (s[i].0, v)), hi) == upper_index(s, hi),
        span(s.update(i, (s[i].0, v)), i + 1, upper_index(s, hi)) == span(
            s,
            i + 1,
            upper_index(s, hi),
        ),
        span(s.update(i, (s[i].0, v)), lower_index(s, lo), i) == span(s, lower_index(s, lo), i),
{
    crate::table::lemma_update_value(s, i, v);
    let t = s.update(i, (s[i].0, v));
    match lo {
        Bound::Included(k) => lemma_count_below_update(s, i, v, k, false),
        Bound::Excluded(k) => lemma_count_below_update(s, i, v, k, true),
        Bound::Unbounded => {},
    }
    match hi {
        Bound::Included(k) => lemma_count_below_update(s, i, v, k, true),
        Bound::Excluded(k) => lemma_count_below_update(s, i, v, k, false),
        Bound::Unbounded => {},
    }
    assert(span(t, i + 1, upper_index(s, hi)) =~= span(s, i + 1, upper_index(s, hi)));
    assert(span(t, lower_index(s, lo), i) =~= span(s, lower_index(s, lo), i));
}

/// A read-only forward walk over the entries of an interval.
pub struct RoRange<'txn, KC, DC> {
    cursor: RoCursor<'txn>,
    state: IterState,
    start: Bound<Vec<u8>>,
    end: Bound<Vec<u8>>,
    marker: PhantomData<(KC, DC)>,
}

/// A read-only forward walk over a whole table.
pub type RoIter<'txn, KC, DC> = RoRange<'txn, KC, DC>;

/// A read-only forward walk over the entries whose keys start with a prefix.
pub type RoPrefix<'txn, KC, DC> = RoRange<'txn, KC, DC>;

impl<'txn, KC, DC> RoRange<'txn, KC, DC> {
    /// The entries of the table that is walked, in key order.
    pub closed spec fn entries(&self) -> Seq<RawEntry> {
        self.cursor.entries()
    }

    /// The entries yet to be yielded, in the order in which they will be.
    pub closed spec fn pending(&self) -> Seq<RawEntry> {
        forward_pending(
            self.cursor.entries(),
            self.cursor.position(),
            self.state,
            self.start@,
            self.end@,
        )
    }

    /// The cursor is well formed, and a walk that is under way stands inside
    /// its interval.
    pub closed spec fn wf(&self) -> bool {
        &&& self.cursor.wf()
        &&& forward_ok(self.cursor.entries(), self.cursor.position(), self.state, self.end@)
    }

    /// A walk that has not started, over the interval from `start` to `end`.
    pub fn new(cursor: RoCursor<'txn>, start: Bound<Vec<u8>>, end: Bound<Vec<u8>>) -> (it: Self)
        requires
            cursor.wf(),
        ensures
            it.wf(),
            it.entries() == cursor.entries(),
            it.pending() == range_entries(cursor.entries(), start@, end@),
    {
        RoRange { cursor, state: IterState::Unstarted, start, end, marker: PhantomData }
    }

    /// Hands out the next entry, decoded, or nothing when the walk is over.
    pub fn next(&mut self) -> (r: Option<Result<(KC::DItem, DC::DItem), Error>>) where
        KC: BytesDecode,
        DC: BytesDecode,

        requires
            old(self).wf(),
        ensures
            final(self).wf(),
            final(self).entries() == old(self).entries(),
            yields::<KC, DC>(old(self).pending(), r),
            final(self).pending() == rest(old(self).pending()),
    {
        match forward_step(&mut self.cursor, &mut self.state, &self.start, &self.end) {
            Some((key, value)) => Some(decode_entry::<KC, DC>(key, value)),
            None => None,
        }
    }
}

/// A read-only backward walk over the entries of an interval.
pub struct RoRevRange<'txn, KC, DC> {
    cursor: RoCursor<'txn>,
    state: IterState,
    start: Bound<Vec<u8>>,
    end: Bound<Vec<u8>>,
    marker: PhantomData<(KC, DC)>,
}

/// A read-only backward walk over a whole table.
pub type RoRevIter<'txn, KC, DC> = RoRevRange<'txn, KC, DC>;

/// A read-only backward walk over the entries whose keys start with a prefix.
pub type RoRevPrefix<'txn, KC, DC> = RoRevRange<'txn, KC, DC>;

impl<'txn, KC, DC> RoRevRange<'txn, KC, DC> {
    /// The entries of the table that is walked, in key order.
    pub closed spec fn entries(&self) -> Seq<RawEntry> {
        self.cursor.entries()
    }

    /// The entries yet to be yielded, in the order in which they will be.
    pub closed spec fn pending(&self) -> Seq<RawEntry> {
        backward_pending(
            self.cursor.entries(),
            self.cursor.position(),
            self.state,
            self.start@,
            self.end@,
        )
    }

    /// The cursor is well formed, and a walk that is under way stands inside
    /// its interval.
    pub closed spec fn wf(&self) -> bool {
        &&& self.cursor.wf()
        &&& backward_ok(self.cursor.entries(), self.cursor.position(), self.state, self.start@)
    }

    /// A walk that has not started, over the interval from `start` to `end`.
    pub fn new(cursor: RoCursor<'txn>, start: Bound<Vec<u8>>, end: Bound<Vec<u8>>) -> (it: Self)
        requires
            cursor.wf(),
        ensures
            it.wf(),
            it.entries() == cursor.entries(),
            it.pending() == range_entries(cursor.entries(), start@, end@).reverse(),
    {
        RoRevRange { cursor, state: IterState::Unstarted, start, end, marker: PhantomData }
    }

    /// Hands out the next entry, decoded, or nothing when the walk is over.
    pub fn next(&mut self) -> (r: Option<Result<(KC::DItem, DC::DItem), Error>>) where
        KC: BytesDecode,
        DC: BytesDecode,

        requires
            old(self).wf(),
        ensures
            final(self).wf(),
            final(self).entries() == old(self).entries(),
            yields::<KC, DC>(old(self).pending(), r),
            final(self).pending() == rest(old(self).pending()),
    {
        match backward_step(&mut self.cursor, &mut self.state, &self.start, &self.end) {
            Some((key, value)) => Some(decode_entry::<KC, DC>(key, value)),
            None => None,
        }
    }
}

/// A forward walk over the entries of an interval that may replace and
/// delete the entry it last yielded. It holds the write transaction for as
/// long as it lives.
pub struct RwRange<'txn, KC, DC> {
    pub cursor: RwCursor<'txn>,
    pub state: IterState,
    pub start: Bound<Vec<u8>>,
    pub end: Bound<Vec<u8>>,
    pub marker: PhantomData<(KC, DC)>,
}

/// A forward walk over a whole table, with leave to replace and delete.
pub type RwIter<'txn, KC, DC> = RwRange<'txn, KC, DC>;

/// A forward walk over the entries whose keys start with a prefix, with
/// leave to replace and delete.
pub type RwPrefix<'txn, KC, DC> = RwRange<'txn, KC, DC>;

impl<'txn, KC, DC> RwRange<'txn, KC, DC> {
    /// The entries of the table that is walked, in key order.
    pub open spec fn entries(&self) -> Seq<RawEntry> {
        self.cursor.entries()
    }

    /// The entries yet to be yielded, in the order in which they will be.
    pub closed spec fn pending(&self) -> Seq<RawEntry> {
        forward_pending(self.cursor.entries(), self.cursor.pos, self.state, self.start@, self.end@)
    }

    /// The entry last yielded, while it is still there.
    pub closed spec fn current(&self) -> Option<RawEntry> {
        yielded(self.cursor.entries(), self.cursor.pos, self.state)
    }

    /// The cursor is well formed, and a walk that is under way stands inside
    /// its interval.
    pub open spec fn wf(&self) -> bool {
        &&& self.cursor.wf()
        &&& forward_ok(self.cursor.entries(), self.cursor.pos, self.state, self.end@)
    }

    /// A walk that has not started, over the interval from `start` to `end`.
    pub fn new(cursor: RwCursor<'txn>, start: Bound<Vec<u8>>, end: Bound<Vec<u8>>) -> (it: Self)
        requires
            cursor.wf(),
        ensures
            it.wf(),
            it.cursor == cursor,
            it.pending() == range_entries(cursor.entries(), start@, end@),
            it.current() is None,
    {
        RwRange { cursor, state: IterState::Unstarted, start, end, marker: PhantomData }
    }

    /// Hands out the next entry, decoded, or nothing when the walk is over.
    /// The transaction is left as it is.
    pub fn next(&mut self) -> (r: Option<Result<(KC::DItem, DC::DItem), Error>>) where
        KC: BytesDecode,
        DC: BytesDecode,

        requires
            old(self).wf(),
        ensures
            final(self).wf(),
            *final(self).cursor.txn == *old(self).cursor.txn,
            final(self).cursor.dbi == old(self).cursor.dbi,
            *final(final(self).cursor.txn) == *final(old(self).cursor.txn),
            yields::<KC, DC>(old(self).pending(), r),
            final(self).pending() == rest(old(self).pending()),
            final(self).current() == first_of(old(self).pending()),
    {
        let mut ro = RoCursor::at(self.cursor.txn.as_ro(), self.cursor.dbi, self.cursor.pos);
        let raw = forward_step(&mut ro, &mut self.state, &self.start, &self.end);
        self.cursor.pos = ro.pos();
        match raw {
            Some((key, value)) => Some(decode_entry::<KC, DC>(key, value)),
            None => None,
        }
    }

    /// Deletes the entry last yielded, if it is still there, and tells
    /// whether it did. What is pending stays pending.
    pub fn delete_current(&mut self) -> (r: Result<bool, Error>)
        requires
            old(self).wf(),
        ensures
            final(self).wf(),
            final(self).cursor.dbi == old(self).cursor.dbi,
            *final(final(self).cursor.txn) == *final(old(self).cursor.txn),
            final(self).pending() == old(self).pending(),
            final(self).current() is None,
            match old(self).current() {
                Some(e) => r == Ok::<bool, Error>(true) && final(self).cursor.txn.changed_from(
                    old(self).cursor.txn,
                    old(self).cursor.dbi,
                    remove_entry(old(self).entries(), e.0),
                ),
                None => r == Ok::<bool, Error>(false)
                    && *final(self).cursor.txn == *old(self).cursor.txn,
            },
    {
        match self.state {
            IterState::Positioned => {
                proof {
                    let s = self.cursor.entries();
                    if let Position::On(i) = self.cursor.pos {
                        lemma_forward_delete(s, i as int, self.end@);
                    }
                }
                self.cursor.delete_current()
            },
            _ => Ok(false),
        }
    }

    /// Replaces the value of the entry last yielded, if it is still there,
    /// by the encoding of `data`, and tells whether it did. What is pending
    /// stays pending.
    pub fn replace_current(&mut self, data: &DC::EItem) -> (r: Result<bool, Error>) where
        DC: BytesEncode,

        requires
            old(self).wf(),
        ensures
            final(self).wf(),
            final(self).cursor.dbi == old(self).cursor.dbi,
            *final(final(self).cursor.txn) == *final(old(self).cursor.txn),
            final(self).pending() == old(self).pending(),
            match DC::encode_spec(data@) {
                Err(x) => r == Err::<bool, Error>(Error::Encoding(x)) && *final(self).cursor.txn
                    == *old(self).cursor.txn && final(self).current() == old(self).current(),
                Ok(bytes) => match old(self).current() {
                    Some(e) => r == Ok::<bool, Error>(true) && final(self).cursor.txn.changed_from(
                        old(self).cursor.txn,
                        old(self).cursor.dbi,
                        put_entry(old(self).entries(), e.0, bytes),
                    ) && final(self).current() == Some((e.0, bytes)),
                    None => r == Ok::<bool, Error>(false)
                        && *final(self).cursor.txn == *old(self).cursor.txn
                        && final(self).current() is None,
                },
            },
    {
        let bytes = match DC::bytes_encode(data) {
            Ok(b) => b,
            Err(e) => {
                return Err(Error::Encoding(e));
            },
        };
        match self.state {
            IterState::Positioned => {
                proof {
                    let s = self.cursor.entries();
                    if let Position::On(i) = self.cursor.pos {
                        lemma_replace_keeps(s, i as int, bytes@, self.start@, self.end@);
                    }
                }
                self.cursor.replace_current(bytes.as_slice())
            },
            _ => Ok(false),
        }
    }
}

/// A backward walk over the entries of an interval that may replace and
/// delete the entry it last yielded. It holds the write transaction for as
/// long as it lives.
pub struct RwRevRange<'txn, KC, DC> {
    pub cursor: RwCursor<'txn>,
    pub state: IterState,
    pub start: Bound<Vec<u8>>,
    pub end: Bound<Vec<u8>>,
    pub marker: PhantomData<(KC, DC)>,
}

/// A backward walk over a whole table, with leave to replace and delete.
pub type RwRevIter<'txn, KC, DC> = RwRevRange<'txn, KC, DC>;

/// A backward walk over the entries whose keys start with a prefix, with
/// leave to replace and delete.
pub type RwRevPrefix<'txn, KC, DC> = RwRevRange<'txn, KC, DC>;

impl<'txn, KC, DC> RwRevRange<'txn, KC, DC> {
    /// The entries of the table that is walked, in key order.
    pub open spec fn entries(&self) -> Seq<RawEntry> {
        self.cursor.entries()
    }

    /// The entries yet to be yielded, in the order in which they will be.
    pub closed spec fn pending(&self) -> Seq<RawEntry> {
        backward_pending(self.cursor.entries(), self.cursor.pos, self.state, self.start@, self.end@)
    }

    /// The entry last yielded, while it is still there.
    pub closed spec fn current(&self) -> Option<RawEntry> {
        yielded(self.cursor.entries(), self.cursor.pos, self.state)
    }

    /// The cursor is well formed, and a walk that is under way stands inside
    /// its interval.
    pub open spec fn wf(&self) -> bool {
        &&& self.cursor.wf()
        &&& backward_ok(self.cursor.entries(), self.cursor.pos, self.state, self.start@)
    }

    /// A walk that has not started, over the interval from `start` to `end`.
    pub fn new(cursor: RwCursor<'txn>, start: Bound<Vec<u8>>, end: Bound<Vec<u8>>) -> (it: Self)
        requires
            cursor.wf(),
        ensures
            it.wf(),
            it.cursor == cursor,
            it.pending() == range_entries(cursor.entries(), start@, end@).reverse(),
            it.current() is None,
    {
        RwRevRange { cursor, state: IterState::Unstarted, start, end, marker: PhantomData }
    }

    /// Hands out the next entry, decoded, or nothing when the walk is over.
    /// The transaction is left as it is.
    pub fn next(&mut self) -> (r: Option<Result<(KC::DItem, DC::DItem), Error>>) where
        KC: BytesDecode,
        DC: BytesDecode,

        requires
            old(self).wf(),
        ensures
            final(self).wf(),
            *final(self).cursor.txn == *old(self).cursor.txn,
            final(self).cursor.dbi == old(self).cursor.dbi,
            *final(final(self).cursor.txn) == *final(old(self).cursor.txn),
            yields::<KC, DC>(old(self).pending(), r),
            final(self).pending() == rest(old(self).pending()),
            final(self).current() == first_of(old(self).pending()),
    {
        let mut ro = RoCursor::at(self.cursor.txn.as_ro(), self.cursor.dbi, self.cursor.pos);
        let raw = backward_step(&mut ro, &mut self.state, &self.start, &self.end);
        self.cursor.pos = ro.pos();
        match raw {
            Some((key, value)) => Some(decode_entry::<KC, DC>(key, value)),
            None => None,
        }
    }

    /// Deletes the entry last yielded, if it is still there, and tells
    /// whether it did. What is pending stays pending.
    pub fn delete_current(&mut self) -> (r: Result<bool, Error>)
        requires
            old(self).wf(),
        ensures
            final(self).wf(),
            final(self).cursor.dbi == old(self).cursor.dbi,
            *final(final(self).cursor.txn) == *final(old(self).cursor.txn),
            final(self).pending() == old(self).pending(),
            final(self).current() is None,
            match old(self).current() {
                Some(e) => r == Ok::<bool, Error>(true) && final(self).cursor.txn.changed_from(
                    old(self).cursor.txn,
                    old(self).cursor.dbi,
                    remove_entry(old(self).entries(), e.0),
                ),
                None => r == Ok::<bool, Error>(false)
                    && *final(self).cursor.txn == *old(self).cursor.txn,
            },
    {
        match self.state {
            IterState::Positioned => {
                proof {
                    let s = self.cursor.entries();
                    if let Position::On(i) = self.cursor.pos {
                        lemma_backward_delete(s, i as int, self.start@);
                    }
                }
                self.cursor.delete_current()
            },
            _ => Ok(false),
        }
    }

    /// Replaces the value of the entry last yielded, if it is still there,
    /// by the encoding of `data`, and tells whether it did. What is pending
    /// stays pending.
    pub fn replace_current(&mut self, data: &DC::EItem) -> (r: Result<bool, Error>) where
        DC: BytesEncode,

        requires
            old(self).wf(),
        ensures
            final(self).wf(),
            final(self).cursor.dbi == old(self).cursor.dbi,
            *final(final(self).cursor.txn) == *final(old(self).cursor.txn),
            final(self).pending() == old(self).pending(),
            match DC::encode_spec(data@) {
                Err(x) => r == Err::<bool, Error>(Error::Encoding(x)) && *final(self).cursor.txn
                    == *old(self).cursor.txn && final(self).current() == old(self).current(),
                Ok(bytes) => match old(self).current() {
                    Some(e) => r == Ok::<bool, Error>(true) && final(self).cursor.txn.changed_from(
                        old(self).cursor.txn,
                        old(self).cursor.dbi,
                        put_entry(old(self).entries(), e.0, bytes),
                    ) && final(self).current() == Some((e.0, bytes)),
                    None => r == Ok::<bool, Error>(false)
                        && *final(self).cursor.txn == *old(self).cursor.txn
                        && final(self).current() is None,
                },
            },
    {
        let bytes = match DC::bytes_encode(data) {
            Ok(b) => b,
            Err(e) => {
                return Err(Error::Encoding(e));
            },
        };
        match self.state {
            IterState::Positioned => {
                proof {
                    let s = self.cursor.entries();
                    if let Position::On(i) = self.cursor.pos {
                        lemma_replace_keeps(s, i as int, bytes@, self.start@, self.end@);
                    }
                }
                self.cursor.replace_current(bytes.as_slice())
            },
            _ => Ok(false),
        }
    }
}

} // verus!
