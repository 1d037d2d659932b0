//! The storage environment and its transactions: an ordered in-memory
//! engine with snapshot reads and one working copy per write transaction.

use crate::db::PolyDatabase;
use crate::error::{EngineError, Error};
use crate::reserved::{zeros, ReservedSpace};
use crate::table::{appendable, put_entry, remove_entry, table_ok, to_map, RawEntry, Table};
use std::ops::Deref;
use vstd::prelude::*;

verus! {

/// How `raw_put` treats the key.
#[derive(Clone, Copy, Debug, PartialEq, Eq, Structural)]
pub enum WriteMode {
    /// Insert, or overwrite the value that is there.
    Upsert,
    /// Insert at the end; the key must be above every key of the table.
    Append,
}

/// Every table of `tables` is sorted and of a length that a machine can
/// index.
pub open spec fn all_ok(tables: Seq<Seq<RawEntry>>) -> bool {
    forall|i: int| 0 <= i < tables.len() ==> table_ok(#[trigger] tables[i])
}

/// A read transaction: a snapshot of the tables of one environment.
pub struct RoTxn {
    env_ident: usize,
    tables: Vec<Table>,
}

impl View for RoTxn {
    type V = Seq<Seq<RawEntry>>;

    closed spec fn view(&self) -> Seq<Seq<RawEntry>> {
        Seq::new(self.tables@.len(), |i: int| self.tables@[i]@)
    }
}

impl RoTxn {
    /// Identity of the environment that the transaction belongs to.
    pub closed spec fn env_ident(&self) -> usize {
        self.env_ident
    }

    /// Every table is sorted and of a length that a machine can index.
    pub open spec fn wf(&self) -> bool {
        all_ok(self@)
    }

    /// `dbi` names a table of this transaction.
    pub open spec fn has_table(&self, dbi: u32) -> bool {
        (dbi as int) < self@.len()
    }

    /// The entries of table `dbi`, in key order.
    pub open spec fn table(&self, dbi: u32) -> Seq<RawEntry> {
        self@[dbi as int]
    }

    /// Identity of the environment that the transaction belongs to.
    pub fn ident(&self) -> (id: usize)
        ensures
            id == self.env_ident(),
    {
        self.env_ident
    }

    /// Tells whether `dbi` names a table.
    pub fn knows(&self, dbi: u32) -> (r: bool)
        ensures
            r == self.has_table(dbi),
    {
        (dbi as usize) < self.tables.len()
    }

    /// The table that `dbi` names.
    pub fn table_ref(&self, dbi: u32) -> (t: &Table)
        requires
            self.has_table(dbi),
        ensures
            t@ == self.table(dbi),
    {
        &self.tables[dbi as usize]
    }

    /// The value stored under `key` in table `dbi`, if any.
    pub fn raw_get(&self, dbi: u32, key: &[u8]) -> (r: Result<Option<&[u8]>, EngineError>)
        requires
            self.wf(),
        ensures
            if self.has_table(dbi) {
                (r matches Ok(found) && match found {
                    Some(v) => to_map(self.table(dbi)).contains_key(key@) && v@ == to_map(
                        self.table(dbi),
                    )[key@],
                    None => !to_map(self.table(dbi)).contains_key(key@),
                })
            } else {
                r == Err::<Option<&[u8]>, EngineError>(EngineError::UnknownTable)
            },
    {
        if !self.knows(dbi) {
            return Err(EngineError::UnknownTable);
        }
        Ok(self.table_ref(dbi).get(key))
    }

    /// Number of entries of table `dbi`.
    pub fn raw_stat(&self, dbi: u32) -> (r: Result<u64, EngineError>)
        ensures
            if self.has_table(dbi) {
                r == Ok::<u64, EngineError>(self.table(dbi).len() as u64)
            } else {
                r == Err::<u64, EngineError>(EngineError::UnknownTable)
            },
    {
        if !self.knows(dbi) {
            return Err(EngineError::UnknownTable);
        }
        Ok(self.table_ref(dbi).len() as u64)
    }
}

/// `after` is `before` with table `dbi` replaced by `table`.
pub open spec fn replaces_table(
    before: Seq<Seq<RawEntry>>,
    after: Seq<Seq<RawEntry>>,
    dbi: u32,
    table: Seq<RawEntry>,
) -> bool {
    (dbi as int) < before.len() && after == before.update(dbi as int, table)
}

/// A write transaction: a working copy of the tables, published by `commit`.
pub struct RwTxn {
    txn: RoTxn,
    max_tables: u32,
}

impl Deref for RwTxn {
    type Target = RoTxn;

    fn deref(&self) -> (r: &RoTxn)
        ensures
            r == self.ro(),
    {
        &self.txn
    }
}

impl RwTxn {
    /// The transaction as a reader sees it.
    pub closed spec fn ro(&self) -> RoTxn {
        self.txn
    }

    /// How many tables the environment allows.
    pub closed spec fn max_tables(&self) -> u32 {
        self.max_tables
    }

    /// The transaction as a reader sees it.
    pub fn as_ro(&self) -> (r: &RoTxn)
        ensures
            r == self.ro(),
    {
        &self.txn
    }

    /// Every table is sorted and of a length that a machine can index.
    pub open spec fn wf(&self) -> bool {
        self.ro().wf()
    }

    /// Identity of the environment that the transaction belongs to.
    pub open spec fn env_ident(&self) -> usize {
        self.ro().env_ident()
    }

    /// `dbi` names a table of this transaction.
    pub open spec fn has_table(&self, dbi: u32) -> bool {
        self.ro().has_table(dbi)
    }

    /// The entries of table `dbi`, in key order.
    pub open spec fn table(&self, dbi: u32) -> Seq<RawEntry> {
        self.ro().table(dbi)
    }

    /// `self` is `before` but for table `dbi`, which now holds `table`.
    pub open spec fn changed_from(&self, before: &RwTxn, dbi: u32, table: Seq<RawEntry>) -> bool {
        &&& self.env_ident() == before.env_ident()
        &&& self.max_tables() == before.max_tables()
        &&& replaces_table(before.ro()@, self.ro()@, dbi, table)
    }

    /// `self` holds what `before` held.
    pub open spec fn same_as(&self, before: &RwTxn) -> bool {
        &&& self.env_ident() == before.env_ident()
        &&& self.max_tables() == before.max_tables()
        &&& self.ro()@ == before.ro()@
    }

    proof fn lemma_table_updated(before: RoTxn, after: RoTxn, dbi: u32)
        requires
            before.wf(),
            before.has_table(dbi),
            after.tables@.len() == before.tables@.len(),
            forall|j: int|
                0 <= j < before.tables@.len() && j != dbi ==> after.tables@[j] == before.tables@[j],
            table_ok(after.tables@[dbi as int]@),
        ensures
            after.wf(),
            after@ == before@.update(dbi as int, after.tables@[dbi as int]@),
    {
        assert(after@ =~= before@.update(dbi as int, after.tables@[dbi as int]@));
        assert forall|i: int| 0 <= i < after@.len() implies table_ok(#[trigger] after@[i]) by {
            if i != dbi {
                assert(after@[i] == before@[i]);
            }
        }
    }

    /// Writes `value` under `key` in table `dbi`. With `WriteMode::Append`
    /// a key that is not above every key of the table is refused.
    pub fn raw_put(&mut self, dbi: u32, key: &[u8], value: &[u8], mode: WriteMode) -> (r: Result<
        (),
        Error,
    >)
        requires
            old(self).wf(),
        ensures
            final(self).wf(),
            if !old(self).has_table(dbi) {
                r == Err::<(), Error>(Error::Engine(EngineError::UnknownTable))
                    && final(self).same_as(old(self))
            } else if mode == WriteMode::Append && !appendable(old(self).table(dbi), key@) {
                r == Err::<(), Error>(Error::KeyOrderViolation) && final(self).same_as(old(self))
            } else {
                r == Ok::<(), Error>(()) && final(self).changed_from(
                    old(self),
                    dbi,
                    put_entry(old(self).table(dbi), key@, value@),
                )
            },
    {
        if !self.txn.knows(dbi) {
            return Err(Error::Engine(EngineError::UnknownTable));
        }
        let ghost before = self.txn;
        assert(table_ok(self.txn@[dbi as int]));
        match mode {
            WriteMode::Upsert => {
                self.txn.tables[dbi as usize].put(key, value);
                proof {
                    Self::lemma_table_updated(before, self.txn, dbi);
                }
                Ok(())
            },
            WriteMode::Append => {
                let ok = self.txn.tables[dbi as usize].append(key, value);
                proof {
                    Self::lemma_table_updated(before, self.txn, dbi);
                    if !ok {
                        assert(self.txn@ =~= before@);
                    }
                }
                if ok {
                    Ok(())
                } else {
                    Err(Error::KeyOrderViolation)
                }
            },
        }
    }

    /// Reserves `size` bytes under `key` in table `dbi`, over any value that was
    /// there, and hands out the space to fill. The reserved bytes are zeros
    /// until they are written and stored back.
    pub fn raw_reserve(&mut self, dbi: u32, key: &[u8], size: usize) -> (r: Result<
        ReservedSpace,
        Error,
    >)
        requires
            old(self).wf(),
        ensures
            final(self).wf(),
            if old(self).has_table(dbi) {
                (r matches Ok(space) && space.size() == size && space.filled() == 0 && space.bytes()
                    == zeros(size as nat)) && final(self).changed_from(
                    old(self),
                    dbi,
                    put_entry(old(self).table(dbi), key@, zeros(size as nat)),
                )
            } else {
                (r matches Err(e) && e == Error::Engine(EngineError::UnknownTable))
                    && final(self).same_as(old(self))
            },
    {
        let space = ReservedSpace::new(size);
        match self.raw_put(dbi, key, space.as_slice(), WriteMode::Upsert) {
            Ok(()) => Ok(space),
            Err(e) => Err(e),
        }
    }

    /// Removes the entry stored under `key` in table `dbi` and tells whether
    /// there was one.
    pub fn raw_delete(&mut self, dbi: u32, key: &[u8]) -> (r: Result<bool, EngineError>)
        requires
            old(self).wf(),
        ensures
            final(self).wf(),
            if old(self).has_table(dbi) {
                r == Ok::<bool, EngineError>(to_map(old(self).table(dbi)).contains_key(key@))
                    && final(self).changed_from(
                    old(self),
                    dbi,
                    remove_entry(old(self).table(dbi), key@),
                )
            } else {
                r == Err::<bool, EngineError>(EngineError::UnknownTable) && final(self).same_as(
                    old(self),
                )
            },
    {
        if !self.txn.knows(dbi) {
            return Err(EngineError::UnknownTable);
        }
        let ghost before = self.txn;
        assert(table_ok(self.txn@[dbi as int]));
        let existed = self.txn.tables[dbi as usize].remove(key);
        proof {
            Self::lemma_table_updated(before, self.txn, dbi);
        }
        Ok(existed)
    }

    /// Removes every entry of table `dbi`.
    pub fn drop_table_contents(&mut self, dbi: u32) -> (r: Result<(), EngineError>)
        requires
            old(self).wf(),
        ensures
            final(self).wf(),
            if old(self).has_table(dbi) {
                r == Ok::<(), EngineError>(()) && final(self).changed_from(
                    old(self),
                    dbi,
                    Seq::<RawEntry>::empty(),
                )
            } else {
                r == Err::<(), EngineError>(EngineError::UnknownTable) && final(self).same_as(
                    old(self),
                )
            },
    {
        if !self.txn.knows(dbi) {
            return Err(EngineError::UnknownTable);
        }
        let ghost before = self.txn;
        self.txn.tables[dbi as usize].clear();
        proof {
            Self::lemma_table_updated(before, self.txn, dbi);
        }
        Ok(())
    }

    /// Replaces the value of the entry at index `i` of table `dbi`.
    pub fn set_value_at(&mut self, dbi: u32, i: usize, value: &[u8])
        requires
            old(self).wf(),
            old(self).has_table(dbi),
            i < old(self).table(dbi).len(),
        ensures
            final(self).wf(),
            final(self).changed_from(
                old(self),
                dbi,
                old(self).table(dbi).update(i as int, (old(self).table(dbi)[i as int].0, value@)),
            ),
    {
        let ghost before = self.txn;
        assert(table_ok(self.txn@[dbi as int]));
        self.txn.tables[dbi as usize].set_value(i, value);
        proof {
            Self::lemma_table_updated(before, self.txn, dbi);
        }
    }

    /// Removes the entry at index `i` of table `dbi`.
    pub fn remove_at(&mut self, dbi: u32, i: usize)
        requires
            old(self).wf(),
            old(self).has_table(dbi),
            i < old(self).table(dbi).len(),
        ensures
            final(self).wf(),
            final(self).changed_from(old(self), dbi, old(self).table(dbi).remove(i as int)),
    {
        let ghost before = self.txn;
        assert(table_ok(self.txn@[dbi as int]));
        self.txn.tables[dbi as usize].remove_at(i);
        proof {
            Self::lemma_table_updated(before, self.txn, dbi);
        }
    }

    /// Adds an empty table and returns the number that names it.
    pub fn create_table(&mut self) -> (r: Result<u32, EngineError>)
        requires
            old(self).wf(),
        ensures
            final(self).wf(),
            final(self).env_ident() == old(self).env_ident(),
            final(self).max_tables() == old(self).max_tables(),
            if old(self).ro()@.len() < old(self).max_tables() {
                r == Ok::<u32, EngineError>(old(self).ro()@.len() as u32) && final(self).ro()@
                    == old(self).ro()@.push(Seq::<RawEntry>::empty())
            } else {
                r == Err::<u32, EngineError>(EngineError::TablesFull)
                    && final(self).ro()@ == old(self).ro()@
            },
    {
        let n = self.txn.tables.len();
        if n >= self.max_tables as usize {
            return Err(EngineError::TablesFull);
        }
        let ghost before = self.txn@;
        self.txn.tables.push(Table::new());
        assert(self.txn@ =~= before.push(Seq::<RawEntry>::empty()));
        assert forall|i: int| 0 <= i < self.txn@.len() implies table_ok(
            #[trigger] self.txn@[i],
        ) by {
            if i < before.len() {
                assert(self.txn@[i] == before[i]);
            }
        }
        Ok(n as u32)
    }

    /// Adds an empty table and returns the polymorphic handle on it.
    pub fn create_poly_database(&mut self) -> (r: Result<PolyDatabase, Error>)
        requires
            old(self).wf(),
        ensures
            final(self).wf(),
            final(self).env_ident() == old(self).env_ident(),
            final(self).max_tables() == old(self).max_tables(),
            if old(self).ro()@.len() < old(self).max_tables() {
                (r matches Ok(db) && db.env_ident() == old(self).env_ident()
                    && db.dbi() == old(self).ro()@.len())
                    && final(self).ro()@ == old(self).ro()@.push(Seq::<RawEntry>::empty())
            } else {
                (r matches Err(e) && e == Error::Engine(EngineError::TablesFull))
                    && final(self).ro()@ == old(self).ro()@
            },
    {
        match self.create_table() {
            Ok(dbi) => Ok(PolyDatabase::new(self.txn.ident(), dbi)),
            Err(e) => Err(Error::Engine(e)),
        }
    }

    /// Ends the transaction and publishes its tables in `env`.
    pub fn commit(self, env: &mut Env)
        requires
            self.wf(),
            self.env_ident() == old(env).ident_spec(),
        ensures
            final(env)@ == self.ro()@,
            final(env).wf(),
            final(env).ident_spec() == old(env).ident_spec(),
            final(env).max_tables() == old(env).max_tables(),
    {
        env.tables = self.txn.tables;
        assert(env@ =~= self.txn@);
    }

    /// Ends the transaction and lets go of its changes.
    pub fn abort(self) {
    }
}

/// Copies every table of `tables`.
fn snapshot_tables(tables: &Vec<Table>) -> (out: Vec<Table>)
    ensures
        out@.len() == tables@.len(),
        forall|i: int| 0 <= i < tables@.len() ==> out@[i]@ == tables@[i]@,
        forall|i: int| 0 <= i < tables@.len() ==> out@[i]@.len() <= usize::MAX,
{
    let mut out: Vec<Table> = Vec::with_capacity(tables.len());
    let mut i: usize = 0;
    while i < tables.len()
        invariant
            0 <= i <= tables@.len(),
            out@.len() == i,
            forall|j: int| 0 <= j < i ==> out@[j]@ == tables@[j]@,
            forall|j: int| 0 <= j < i ==> out@[j]@.len() <= usize::MAX,
        decreases tables@.len() - i,
    {
        out.push(tables[i].snapshot());
        i += 1;
    }
    out
}

/// An environment: the committed state of its tables.
pub struct Env {
    ident: usize,
    max_tables: u32,
    tables: Vec<Table>,
}

impl View for Env {
    type V = Seq<Seq<RawEntry>>;

    closed spec fn view(&self) -> Seq<Seq<RawEntry>> {
        Seq::new(self.tables@.len(), |i: int| self.tables@[i]@)
    }
}

impl Env {
    /// Identity of the environment.
    pub closed spec fn ident_spec(&self) -> usize {
        self.ident
    }

    /// How many tables the environment allows.
    pub closed spec fn max_tables(&self) -> u32 {
        self.max_tables
    }

    /// Every table is sorted and of a length that a machine can index.
    pub open spec fn wf(&self) -> bool {
        all_ok(self@)
    }

    /// An environment without tables that allows up to `max_tables` of them.
    pub fn new(ident: usize, max_tables: u32) -> (env: Env)
        ensures
            env.wf(),
            env@.len() == 0,
            env.ident_spec() == ident,
            env.max_tables() == max_tables,
    {
        Env { ident, max_tables, tables: Vec::new() }
    }

    /// Identity of the environment.
    pub fn ident(&self) -> (id: usize)
        ensures
            id == self.ident_spec(),
    {
        self.ident
    }

    /// Starts a read transaction on the committed state.
    pub fn read_txn(&self) -> (txn: RoTxn)
        requires
            self.wf(),
        ensures
            txn.wf(),
            txn@ == self@,
            txn.env_ident() == self.ident_spec(),
    {
        let txn = RoTxn { env_ident: self.ident, tables: snapshot_tables(&self.tables) };
        assert(txn@ =~= self@);
        txn
    }

    /// Starts a write transaction on the committed state.
    pub fn write_txn(&self) -> (txn: RwTxn)
        requires
            self.wf(),
        ensures
            txn.wf(),
            txn.ro()@ == self@,
            txn.env_ident() == self.ident_spec(),
            txn.max_tables() == self.max_tables(),
    {
        let txn = RoTxn { env_ident: self.ident, tables: snapshot_tables(&self.tables) };
        assert(txn@ =~= self@);
        RwTxn { txn, max_tables: self.max_tables }
    }
}

} // verus!
