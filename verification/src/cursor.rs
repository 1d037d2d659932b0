//! Cursors: a position in one table of one transaction.

use crate::env::{RoTxn, RwTxn};
use crate::error::{EngineError, Error};
use crate::table::{count_below, RawEntry};
use vstd::prelude::*;

verus! {

/// Where a cursor stands: nowhere yet, on the entry at an index, or in the
/// gap just before an index (past the last entry when the index is the
/// number of entries).
#[derive(Clone, Copy, Debug, PartialEq, Eq, Structural)]
pub enum Position {
    Unset,
    On(usize),
    Gap(usize),
}

/// The position for index `i` in a table of `len` entries: on the entry if
/// there is one, else in the gap at the near end.
pub open spec fn place(i: int, len: int) -> Position {
    if i < 0 {
        Position::Gap(0)
    } else if i < len {
        Position::On(i as usize)
    } else {
        Position::Gap(len as usize)
    }
}

/// `pos` fits a table of `len` entries.
pub open spec fn fits(pos: Position, len: int) -> bool {
    match pos {
        Position::Unset => true,
        Position::On(i) => i < len,
        Position::Gap(i) => i <= len,
    }
}

/// The entry that a cursor at `pos` stands on, if any.
pub open spec fn entry_under(s: Seq<RawEntry>, pos: Position) -> Option<RawEntry> {
    match pos {
        Position::On(i) => Some(s[i as int]),
        _ => None,
    }
}

/// Where a step forward from `pos` leads.
pub open spec fn next_position(pos: Position, len: int) -> Position {
    match pos {
        Position::Unset => Position::Unset,
        Position::On(i) => place(i + 1, len),
        Position::Gap(i) => place(i as int, len),
    }
}

/// Where a step backward from `pos` leads.
pub open spec fn prev_position(pos: Position, len: int) -> Position {
    match pos {
        Position::Unset => Position::Unset,
        Position::On(i) => place(i - 1, len),
        Position::Gap(i) => place(i - 1, len),
    }
}

/// Where a seek to the first key at or after `k` leads.
pub open spec fn seek_position(s: Seq<RawEntry>, k: Seq<u8>) -> Position {
    place(count_below(s, k, false) as int, s.len() as int)
}

/// What a pair of byte slices holds.
pub open spec fn raw_view(o: Option<(&[u8], &[u8])>) -> Option<RawEntry> {
    match o {
        Some(e) => Some((e.0@, e.1@)),
        None => None,
    }
}

/// What a movement returns: the entry under the cursor's new position.
pub open spec fn lands_on(
    r: Result<Option<(&[u8], &[u8])>, Error>,
    s: Seq<RawEntry>,
    pos: Position,
) -> bool {
    r matches Ok(o) && raw_view(o) == entry_under(s, pos)
}

/// A read-only cursor over one table of a read transaction.
pub struct RoCursor<'txn> {
    txn: &'txn RoTxn,
    dbi: u32,
    pos: Position,
}

impl<'txn> RoCursor<'txn> {
    /// The transaction that the cursor reads.
    pub closed spec fn txn(&self) -> &RoTxn {
        self.txn
    }

    /// The table that the cursor walks.
    pub closed spec fn dbi(&self) -> u32 {
        self.dbi
    }

    /// Where the cursor stands.
    pub closed spec fn position(&self) -> Position {
        self.pos
    }

    /// The entries of the cursor's table, in key order.
    pub open spec fn entries(&self) -> Seq<RawEntry> {
        self.txn().table(self.dbi())
    }

    /// The cursor is over a table of a well-formed transaction, and its
    /// position fits that table.
    pub open spec fn wf(&self) -> bool {
        &&& self.txn().wf()
        &&& self.txn().has_table(self.dbi())
        &&& fits(self.position(), self.entries().len() as int)
    }

    /// The same cursor at another position.
    pub open spec fn moved_from(&self, before: &RoCursor<'txn>, pos: Position) -> bool {
        &&& self.txn() == before.txn()
        &&& self.dbi() == before.dbi()
        &&& self.position() == pos
    }

    /// Opens a cursor on table `dbi`, placed nowhere yet.
    pub fn new(txn: &'txn RoTxn, dbi: u32) -> (r: Result<RoCursor<'txn>, Error>)
        requires
            txn.wf(),
        ensures
            !txn.has_table(dbi) ==> (r matches Err(e) && e == Error::Engine(
                EngineError::UnknownTable,
            )),
            txn.has_table(dbi) ==> (r matches Ok(c) && c.wf() && c.txn() == txn && c.dbi() == dbi
                && c.position() == Position::Unset),
    {
        if !txn.knows(dbi) {
            return Err(Error::Engine(EngineError::UnknownTable));
        }
        Ok(RoCursor { txn, dbi, pos: Position::Unset })
    }

    /// A cursor on table `dbi` that stands at `pos`.
    pub fn at(txn: &'txn RoTxn, dbi: u32, pos: Position) -> (c: RoCursor<'txn>)
        requires
            txn.wf(),
            txn.has_table(dbi),
            fits(pos, txn.table(dbi).len() as int),
        ensures
            c.wf(),
            c.txn() == txn,
            c.dbi() == dbi,
            c.position() == pos,
    {
        RoCursor { txn, dbi, pos }
    }

    /// Where the cursor stands.
    pub fn pos(&self) -> (p: Position)
        ensures
            p == self.position(),
    {
        self.pos
    }

    /// Places the cursor at index `i`, or in the gap at the end when there
    /// is no such entry, and returns the entry it then stands on.
    fn settle(&mut self, i: usize) -> (r: Option<(&'txn [u8], &'txn [u8])>)
        requires
            old(self).wf(),
        ensures
            final(self).wf(),
            final(self).moved_from(old(self), place(i as int, old(self).entries().len() as int)),
            raw_view(r) == entry_under(final(self).entries(), final(self).position()),
    {
        let table = self.txn.table_ref(self.dbi);
        if i < table.len() {
            self.pos = Position::On(i);
            Some(table.entry(i))
        } else {
            self.pos = Position::Gap(table.len());
            None
        }
    }

    /// The entry that the cursor stands on, if any.
    pub fn current(&self) -> (r: Option<(&'txn [u8], &'txn [u8])>)
        requires
            self.wf(),
        ensures
            raw_view(r) == entry_under(self.entries(), self.position()),
    {
        match self.pos {
            Position::On(i) => Some(self.txn.table_ref(self.dbi).entry(i)),
            _ => None,
        }
    }

    /// Moves to the first entry in key order; there is none in an empty table.
    pub fn move_to_first(&mut self) -> (r: Result<Option<(&'txn [u8], &'txn [u8])>, Error>)
        requires
            old(self).wf(),
        ensures
            final(self).wf(),
            final(self).moved_from(old(self), place(0, old(self).entries().len() as int)),
            lands_on(r, final(self).entries(), final(self).position()),
    {
        Ok(self.settle(0))
    }

    /// Moves to the last entry in key order; there is none in an empty table.
    pub fn move_to_last(&mut self) -> (r: Result<Option<(&'txn [u8], &'txn [u8])>, Error>)
        requires
            old(self).wf(),
        ensures
            final(self).wf(),
            final(self).moved_from(
                old(self),
                place(old(self).entries().len() - 1, old(self).entries().len() as int),
            ),
            lands_on(r, final(self).entries(), final(self).position()),
    {
        let n = self.txn.table_ref(self.dbi).len();
        if n == 0 {
            self.pos = Position::Gap(0);
            Ok(None)
        } else {
            Ok(self.settle(n - 1))
        }
    }

    /// Moves to the entry after the current position. A cursor that was
    /// never placed cannot step.
    pub fn move_to_next(&mut self) -> (r: Result<Option<(&'txn [u8], &'txn [u8])>, Error>)
        requires
            old(self).wf(),
        ensures
            final(self).wf(),
            final(self).moved_from(
                old(self),
                next_position(old(self).position(), old(self).entries().len() as int),
            ),
            old(self).position() is Unset ==> (r matches Err(e) && e == Error::Engine(
                EngineError::CursorUnpositioned,
            )),
            !(old(self).position() is Unset) ==> lands_on(
                r,
                final(self).entries(),
                final(self).position(),
            ),
    {
        match self.pos {
            Position::Unset => Err(Error::Engine(EngineError::CursorUnpositioned)),
            Position::On(i) => {
                let n = self.txn.table_ref(self.dbi).len();
                assert(i < n);
                Ok(self.settle(i + 1))
            },
            Position::Gap(i) => Ok(self.settle(i)),
        }
    }

    /// Moves to the entry before the current position. A cursor that was
    /// never placed cannot step.
    pub fn move_to_prev(&mut self) -> (r: Result<Option<(&'txn [u8], &'txn [u8])>, Error>)
        requires
            old(self).wf(),
        ensures
            final(self).wf(),
            final(self).moved_from(
                old(self),
                prev_position(old(self).position(), old(self).entries().len() as int),
            ),
            old(self).position() is Unset ==> (r matches Err(e) && e == Error::Engine(
                EngineError::CursorUnpositioned,
            )),
            !(old(self).position() is Unset) ==> lands_on(
                r,
                final(self).entries(),
                final(self).position(),
            ),
    {
        match self.pos {
            Position::Unset => Err(Error::Engine(EngineError::CursorUnpositioned)),
            Position::On(i) | Position::Gap(i) => {
                if i == 0 {
                    self.pos = Position::Gap(0);
                    Ok(None)
                } else {
                    Ok(self.settle(i - 1))
                }
            },
        }
    }

    /// Moves to the first entry whose key is at or after `key`; there is
    /// none when every key is below it.
    pub fn move_to_key_at_or_after(&mut self, key: &[u8]) -> (r: Result<
        Option<(&'txn [u8], &'txn [u8])>,
        Error,
    >)
        requires
            old(self).wf(),
        ensures
            final(self).wf(),
            final(self).moved_from(old(self), seek_position(old(self).entries(), key@)),
            lands_on(r, final(self).entries(), final(self).position()),
    {
        let i = self.txn.table_ref(self.dbi).seek(key);
        Ok(self.settle(i))
    }
}

/// A read-write cursor over one table of a write transaction. While it
/// lives, nothing else reaches the transaction.
pub struct RwCursor<'txn> {
    pub txn: &'txn mut RwTxn,
    pub dbi: u32,
    pub pos: Position,
}

impl<'txn> RwCursor<'txn> {
    /// The entries of the cursor's table, in key order.
    pub open spec fn entries(&self) -> Seq<RawEntry> {
        self.txn.table(self.dbi)
    }

    /// The cursor is over a table of a well-formed transaction, and its
    /// position fits that table.
    pub open spec fn wf(&self) -> bool {
        &&& self.txn.wf()
        &&& self.txn.has_table(self.dbi)
        &&& fits(self.pos, self.entries().len() as int)
    }

    /// The same cursor over the same transaction state, at another position.
    pub open spec fn moved_from(&self, before: &RwCursor<'txn>, pos: Position) -> bool {
        &&& *self.txn == *before.txn
        &&& self.dbi == before.dbi
        &&& self.pos == pos
    }

    /// Opens a cursor on table `dbi`, placed nowhere yet.
    pub fn new(txn: &'txn mut RwTxn, dbi: u32) -> (r: Result<RwCursor<'txn>, Error>)
        requires
            old(txn).wf(),
        ensures
            !old(txn).has_table(dbi) ==> (r matches Err(e) && e == Error::Engine(
                EngineError::UnknownTable,
            )) && *final(txn) == *old(txn),
            old(txn).has_table(dbi) ==> (r matches Ok(c) && c.wf() && *c.txn == *old(txn) && c.dbi
                == dbi && c.pos == Position::Unset && *final(txn) == *final(c.txn)),
    {
        if !txn.knows(dbi) {
            return Err(Error::Engine(EngineError::UnknownTable));
        }
        Ok(RwCursor { txn, dbi, pos: Position::Unset })
    }

    /// The entry that the cursor stands on, if any.
    pub fn current(&self) -> (r: Option<(&[u8], &[u8])>)
        requires
            self.wf(),
        ensures
            raw_view(r) == entry_under(self.entries(), self.pos),
    {
        RoCursor::at(self.txn.as_ro(), self.dbi, self.pos).current()
    }

    /// Moves to the first entry in key order; there is none in an empty table.
    pub fn move_to_first(&mut self) -> (r: Result<Option<(&[u8], &[u8])>, Error>)
        requires
            old(self).wf(),
        ensures
            final(self).wf(),
            final(self).moved_from(old(self), place(0, old(self).entries().len() as int)),
            *final(final(self).txn) == *final(old(self).txn),
            lands_on(r, final(self).entries(), final(self).pos),
    {
        let mut ro = RoCursor::at(self.txn.as_ro(), self.dbi, self.pos);
        let r = ro.move_to_first();
        self.pos = ro.pos();
        r
    }

    /// Moves to the last entry in key order; there is none in an empty table.
    pub fn move_to_last(&mut self) -> (r: Result<Option<(&[u8], &[u8])>, Error>)
        requires
            old(self).wf(),
        ensures
            final(self).wf(),
            final(self).moved_from(
                old(self),
                place(old(self).entries().len() - 1, old(self).entries().len() as int),
            ),
            *final(final(self).txn) == *final(old(self).txn),
            lands_on(r, final(self).entries(), final(self).pos),
    {
        let mut ro = RoCursor::at(self.txn.as_ro(), self.dbi, self.pos);
        let r = ro.move_to_last();
        self.pos = ro.pos();
        r
    }

    /// Moves to the entry after the current position. A cursor that was
    /// never placed cannot step.
    pub fn move_to_next(&mut self) -> (r: Result<Option<(&[u8], &[u8])>, Error>)
        requires
            old(self).wf(),
        ensures
            final(self).wf(),
            final(self).moved_from(
                old(self),
                next_position(old(self).pos, old(self).entries().len() as int),
            ),
            *final(final(self).txn) == *final(old(self).txn),
            old(self).pos is Unset ==> (r matches Err(e) && e == Error::Engine(
                EngineError::CursorUnpositioned,
            )),
            !(old(self).pos is Unset) ==> lands_on(r, final(self).entries(), final(self).pos),
    {
        let mut ro = RoCursor::at(self.txn.as_ro(), self.dbi, self.pos);
        let r = ro.move_to_next();
        self.pos = ro.pos();
        r
    }

    /// Moves to the entry before the current position. A cursor that was
    /// never placed cannot step.
    pub fn move_to_prev(&mut self) -> (r: Result<Option<(&[u8], &[u8])>, Error>)
        requires
            old(self).wf(),
        ensures
            final(self).wf(),
            final(self).moved_from(
                old(self),
                prev_position(old(self).pos, old(self).entries().len() as int),
            ),
            *final(final(self).txn) == *final(old(self).txn),
            old(self).pos is Unset ==> (r matches Err(e) && e == Error::Engine(
                EngineError::CursorUnpositioned,
            )),
            !(old(self).pos is Unset) ==> lands_on(r, final(self).entries(), final(self).pos),
    {
        let mut ro = RoCursor::at(self.txn.as_ro(), self.dbi, self.pos);
        let r = ro.move_to_prev();
        self.pos = ro.pos();
        r
    }

    /// Moves to the first entry whose key is at or after `key`; there is
    /// none when every key is below it.
    pub fn move_to_key_at_or_after(&mut self, key: &[u8]) -> (r: Result<
        Option<(&[u8], &[u8])>,
        Error,
    >)
        requires
            old(self).wf(),
        ensures
            final(self).wf(),
            final(self).moved_from(old(self), seek_position(old(self).entries(), key@)),
            *final(final(self).txn) == *final(old(self).txn),
            lands_on(r, final(self).entries(), final(self).pos),
    {
        let mut ro = RoCursor::at(self.txn.as_ro(), self.dbi, self.pos);
        let r = ro.move_to_key_at_or_after(key);
        self.pos = ro.pos();
        r
    }

    /// Overwrites the value of the entry that the cursor stands on, if it
    /// stands on one, and tells whether it did. The cursor does not move.
    pub fn replace_current(&mut self, value: &[u8]) -> (r: Result<bool, Error>)
        requires
            old(self).wf(),
        ensures
            final(self).wf(),
            final(self).dbi == old(self).dbi,
            final(self).pos == old(self).pos,
            *final(final(self).txn) == *final(old(self).txn),
            match old(self).pos {
                Position::On(i) => r == Ok::<bool, Error>(true) && final(self).txn.changed_from(
                    old(self).txn,
                    old(self).dbi,
                    old(self).entries().update(i as int, (old(self).entries()[i as int].0, value@)),
                ),
                _ => r == Ok::<bool, Error>(false) && *final(self).txn == *old(self).txn,
            },
    {
        match self.pos {
            Position::On(i) => {
                self.txn.set_value_at(self.dbi, i, value);
                Ok(true)
            },
            _ => Ok(false),
        }
    }

    /// Removes the entry that the cursor stands on, if it stands on one, and
    /// tells whether it did. The cursor then stands in the gap that the
    /// entry left: a step forward reaches the entry that followed it, a step
    /// backward the one that preceded it.
    pub fn delete_current(&mut self) -> (r: Result<bool, Error>)
        requires
            old(self).wf(),
        ensures
            final(self).wf(),
            final(self).dbi == old(self).dbi,
            *final(final(self).txn) == *final(old(self).txn),
            match old(self).pos {
                Position::On(i) => r == Ok::<bool, Error>(true)
                    && final(self).pos == Position::Gap(i)
                    && final(self).txn.changed_from(
                    old(self).txn,
                    old(self).dbi,
                    old(self).entries().remove(i as int),
                ),
                _ => r == Ok::<bool, Error>(false) && final(self).pos == old(self).pos
                    && *final(self).txn == *old(self).txn,
            },
    {
        match self.pos {
            Position::On(i) => {
                self.txn.remove_at(self.dbi, i);
                self.pos = Position::Gap(i);
                Ok(true)
            },
            _ => Ok(false),
        }
    }
}

} // verus!
