//! The uniform handle: a table handle with its codecs fixed as type
//! parameters.

use crate::bounds::{prefix_entries, range_entries, KeyRange};
use crate::codec::{BytesDecode, BytesEncode};
use crate::db::{
    append_spec, clear_spec, delete_range_spec, delete_spec, encoded_range, entry_at, fails_with,
    get_spec, neighbour, put_spec, reserved_spec, ro_rev_walk, ro_walk, rw_rev_walk, rw_walk,
    typed_entry, PolyDatabase,
};
use crate::env::{RoTxn, RwTxn};
use crate::error::{EngineError, Error};
use crate::iter::{
    RoIter, RoPrefix, RoRange, RoRevIter, RoRevPrefix, RoRevRange, RwIter, RwPrefix, RwRange,
    RwRevIter, RwRevPrefix, RwRevRange,
};
use crate::reserved::{zeros, ReservedSpace};
use std::marker::PhantomData;
use vstd::prelude::*;

verus! {

/// A uniform handle on one table: every call uses the key codec `KC` and
/// the value codec `DC`.
pub struct Database<KC, DC> {
    env_ident: usize,
    dbi: u32,
    marker: PhantomData<(KC, DC)>,
}

impl<KC, DC> Clone for Database<KC, DC> {
    fn clone(&self) -> (db: Self)
        ensures
            db == *self,
    {
        Database { env_ident: self.env_ident, dbi: self.dbi, marker: PhantomData }
    }
}

impl<KC, DC> Copy for Database<KC, DC> {}

impl<KC, DC> Database<KC, DC> {
    /// Identity of the environment that the table belongs to.
    pub closed spec fn env_ident(&self) -> usize {
        self.env_ident
    }

    /// The number that names the table in its environment.
    pub closed spec fn dbi(&self) -> u32 {
        self.dbi
    }

    /// The handle on table `dbi` of the environment `env_ident`.
    pub fn new(env_ident: usize, dbi: u32) -> (db: Database<KC, DC>)
        ensures
            db.env_ident() == env_ident,
            db.dbi() == dbi,
    {
        Database { env_ident, dbi, marker: PhantomData }
    }

    /// The same table as a polymorphic handle.
    pub fn as_polymorph(&self) -> (db: PolyDatabase)
        ensures
            db.env_ident() == self.env_ident(),
            db.dbi() == self.dbi(),
    {
        PolyDatabase::new(self.env_ident, self.dbi)
    }

    /// Tells whether `txn` belongs to the environment of this table. Every
    /// operation asks for it.
    pub fn same_env(&self, txn: &RoTxn) -> (r: bool)
        ensures
            r == (self.env_ident() == txn.env_ident()),
    {
        self.env_ident == txn.ident()
    }

    /// The value stored under `key`.
    pub fn get(&self, txn: &RoTxn, key: &KC::EItem) -> (r: Result<
        Option<DC::DItem>,
        Error,
    >) where
        KC: BytesEncode,
        DC: BytesDecode,

        requires
            txn.wf(),
            self.env_ident() == txn.env_ident(),
        ensures
            get_spec::<KC, DC>(txn, self.dbi(), key@, r),
    {
        self.as_polymorph().get::<KC, DC>(txn, key)
    }

    /// The entry with the greatest key strictly below `key`.
    pub fn get_lower_than(
        &self,
        txn: &RoTxn,
        key: &KC::EItem,
    ) -> (r: Result<Option<(KC::DItem, DC::DItem)>, Error>) where
        KC: BytesEncode + BytesDecode,
        DC: BytesDecode,

        requires
            txn.wf(),
            self.env_ident() == txn.env_ident(),
        ensures
            neighbour::<KC, DC>(txn, self.dbi(), key@, false, false, r),
    {
        self.as_polymorph().get_lower_than::<KC, DC>(txn, key)
    }

    /// The entry with the greatest key at or below `key`.
    pub fn get_lower_than_or_equal_to(
        &self,
        txn: &RoTxn,
        key: &KC::EItem,
    ) -> (r: Result<Option<(KC::DItem, DC::DItem)>, Error>) where
        KC: BytesEncode + BytesDecode,
        DC: BytesDecode,

        requires
            txn.wf(),
            self.env_ident() == txn.env_ident(),
        ensures
            neighbour::<KC, DC>(txn, self.dbi(), key@, false, true, r),
    {
        self.as_polymorph().get_lower_than_or_equal_to::<KC, DC>(txn, key)
    }

    /// The entry with the least key strictly above `key`.
    pub fn get_greater_than(
        &self,
        txn: &RoTxn,
        key: &KC::EItem,
    ) -> (r: Result<Option<(KC::DItem, DC::DItem)>, Error>) where
        KC: BytesEncode + BytesDecode,
        DC: BytesDecode,

        requires
            txn.wf(),
            self.env_ident() == txn.env_ident(),
        ensures
            neighbour::<KC, DC>(txn, self.dbi(), key@, true, false, r),
    {
        self.as_polymorph().get_greater_than::<KC, DC>(txn, key)
    }

    /// The entry with the least key at or above `key`.
    pub fn get_greater_than_or_equal_to(
        &self,
        txn: &RoTxn,
        key: &KC::EItem,
    ) -> (r: Result<Option<(KC::DItem, DC::DItem)>, Error>) where
        KC: BytesEncode + BytesDecode,
        DC: BytesDecode,

        requires
            txn.wf(),
            self.env_ident() == txn.env_ident(),
        ensures
            neighbour::<KC, DC>(txn, self.dbi(), key@, true, true, r),
    {
        self.as_polymorph().get_greater_than_or_equal_to::<KC, DC>(txn, key)
    }

    /// The entry with the least key of the table.
    pub fn first(&self, txn: &RoTxn) -> (r: Result<
        Option<(KC::DItem, DC::DItem)>,
        Error,
    >) where
        KC: BytesDecode,
        DC: BytesDecode,

        requires
            txn.wf(),
            self.env_ident() == txn.env_ident(),
        ensures
            if txn.has_table(self.dbi()) {
                typed_entry::<KC, DC>(entry_at(txn.table(self.dbi()), 0), r)
            } else {
                fails_with(r, Error::Engine(EngineError::UnknownTable))
            },
    {
        self.as_polymorph().first::<KC, DC>(txn)
    }

    /// The entry with the greatest key of the table.
    pub fn last(&self, txn: &RoTxn) -> (r: Result<
        Option<(KC::DItem, DC::DItem)>,
        Error,
    >) where
        KC: BytesDecode,
        DC: BytesDecode,

        requires
            txn.wf(),
            self.env_ident() == txn.env_ident(),
        ensures
            if txn.has_table(self.dbi()) {
                typed_entry::<KC, DC>(
                    entry_at(txn.table(self.dbi()), txn.table(self.dbi()).len() - 1),
                    r,
                )
            } else {
                fails_with(r, Error::Engine(EngineError::UnknownTable))
            },
    {
        self.as_polymorph().last::<KC, DC>(txn)
    }

    /// Number of entries of the table.
    pub fn len(&self, txn: &RoTxn) -> (r: Result<u64, Error>)
        requires
            txn.wf(),
            self.env_ident() == txn.env_ident(),
        ensures
            if txn.has_table(self.dbi()) {
                r == Ok::<u64, Error>(txn.table(self.dbi()).len() as u64)
            } else {
                fails_with(r, Error::Engine(EngineError::UnknownTable))
            },
    {
        self.as_polymorph().len(txn)
    }

    /// Tells whether the table holds no entry.
    pub fn is_empty(&self, txn: &RoTxn) -> (r: Result<bool, Error>)
        requires
            txn.wf(),
            self.env_ident() == txn.env_ident(),
        ensures
            if txn.has_table(self.dbi()) {
                r == Ok::<bool, Error>(txn.table(self.dbi()).len() == 0)
            } else {
                fails_with(r, Error::Engine(EngineError::UnknownTable))
            },
    {
        self.as_polymorph().is_empty(txn)
    }

    /// A walk over every entry of the table, in increasing key order.
    pub fn iter<'txn>(&self, txn: &'txn RoTxn) -> (r: Result<RoIter<'txn, KC, DC>, Error>)
        requires
            txn.wf(),
            self.env_ident() == txn.env_ident(),
        ensures
            if txn.has_table(self.dbi()) {
                (r matches Ok(it) && ro_walk(&it, txn, self.dbi(), txn.table(self.dbi())))
            } else {
                fails_with(r, Error::Engine(EngineError::UnknownTable))
            },
    {
        self.as_polymorph().iter::<KC, DC>(txn)
    }

    /// A walk over every entry of the table, in increasing key order, with
    /// leave to replace and delete the entry last yielded.
    pub fn iter_mut<'txn>(
        &self,
        txn: &'txn mut RwTxn,
    ) -> (r: Result<RwIter<'txn, KC, DC>, Error>)
        requires
            old(txn).wf(),
            self.env_ident() == old(txn).env_ident(),
        ensures
            if old(txn).has_table(self.dbi()) {
                (r matches Ok(it) && rw_walk(&it, old(txn), self.dbi(), old(txn).table(self.dbi()))
                    && *final(txn) == *final(it.cursor.txn))
            } else {
                fails_with(r, Error::Engine(EngineError::UnknownTable)) && *final(txn) == *old(txn)
            },
    {
        self.as_polymorph().iter_mut::<KC, DC>(txn)
    }

    /// A walk over every entry of the table, in decreasing key order.
    pub fn rev_iter<'txn>(
        &self,
        txn: &'txn RoTxn,
    ) -> (r: Result<RoRevIter<'txn, KC, DC>, Error>)
        requires
            txn.wf(),
            self.env_ident() == txn.env_ident(),
        ensures
            if txn.has_table(self.dbi()) {
                (r matches Ok(it) && ro_rev_walk(
                    &it,
                    txn,
                    self.dbi(),
                    txn.table(self.dbi()).reverse(),
                ))
            } else {
                fails_with(r, Error::Engine(EngineError::UnknownTable))
            },
    {
        self.as_polymorph().rev_iter::<KC, DC>(txn)
    }

    /// A walk over every entry of the table, in decreasing key order, with
    /// leave to replace and delete the entry last yielded.
    pub fn rev_iter_mut<'txn>(
        &self,
        txn: &'txn mut RwTxn,
    ) -> (r: Result<RwRevIter<'txn, KC, DC>, Error>)
        requires
            old(txn).wf(),
            self.env_ident() == old(txn).env_ident(),
        ensures
            if old(txn).has_table(self.dbi()) {
                (r matches Ok(it) && rw_rev_walk(
                    &it,
                    old(txn),
                    self.dbi(),
                    old(txn).table(self.dbi()).reverse(),
                ) && *final(txn) == *final(it.cursor.txn))
            } else {
                fails_with(r, Error::Engine(EngineError::UnknownTable)) && *final(txn) == *old(txn)
            },
    {
        self.as_polymorph().rev_iter_mut::<KC, DC>(txn)
    }

    /// A walk over the entries whose keys lie in `range`, in increasing key
    /// order. The bounds are compared as encoded bytes.
    pub fn range<'a, 'txn>(
        &self,
        txn: &'txn RoTxn,
        range: &KeyRange<'a, KC::EItem>,
    ) -> (r: Result<RoRange<'txn, KC, DC>, Error>) where
        KC: BytesEncode,

        requires
            txn.wf(),
            self.env_ident() == txn.env_ident(),
        ensures
            match encoded_range::<KC>(range.start@, range.end@) {
                Err(e) => fails_with(r, e),
                Ok(b) => if txn.has_table(self.dbi()) {
                    (r matches Ok(it) && ro_walk(
                        &it,
                        txn,
                        self.dbi(),
                        range_entries(txn.table(self.dbi()), b.0, b.1),
                    ))
                } else {
                    fails_with(r, Error::Engine(EngineError::UnknownTable))
                },
            },
    {
        self.as_polymorph().range::<KC, DC>(txn, range)
    }

    /// A walk over the entries whose keys lie in `range`, in increasing key
    /// order, with leave to replace and delete the entry last yielded.
    pub fn range_mut<'a, 'txn>(
        &self,
        txn: &'txn mut RwTxn,
        range: &KeyRange<'a, KC::EItem>,
    ) -> (r: Result<RwRange<'txn, KC, DC>, Error>) where
        KC: BytesEncode,

        requires
            old(txn).wf(),
            self.env_ident() == old(txn).env_ident(),
        ensures
            match encoded_range::<KC>(range.start@, range.end@) {
                Err(e) => fails_with(r, e) && *final(txn) == *old(txn),
                Ok(b) => if old(txn).has_table(self.dbi()) {
                    (r matches Ok(it) && rw_walk(
                        &it,
                        old(txn),
                        self.dbi(),
                        range_entries(old(txn).table(self.dbi()), b.0, b.1),
                    ) && *final(txn) == *final(it.cursor.txn))
                } else {
                    fails_with(r, Error::Engine(EngineError::UnknownTable))
                        && *final(txn) == *old(txn)
                },
            },
    {
        self.as_polymorph().range_mut::<KC, DC>(txn, range)
    }

    /// A walk over the entries whose keys lie in `range`, in decreasing key
    /// order. The bounds are compared as encoded bytes.
    pub fn rev_range<'a, 'txn>(
        &self,
        txn: &'txn RoTxn,
        range: &KeyRange<'a, KC::EItem>,
    ) -> (r: Result<RoRevRange<'txn, KC, DC>, Error>) where
        KC: BytesEncode,

        requires
            txn.wf(),
            self.env_ident() == txn.env_ident(),
        ensures
            match encoded_range::<KC>(range.start@, range.end@) {
                Err(e) => fails_with(r, e),
                Ok(b) => if txn.has_table(self.dbi()) {
                    (r matches Ok(it) && ro_rev_walk(
                        &it,
                        txn,
                        self.dbi(),
                        range_entries(txn.table(self.dbi()), b.0, b.1).reverse(),
                    ))
                } else {
                    fails_with(r, Error::Engine(EngineError::UnknownTable))
                },
            },
    {
        self.as_polymorph().rev_range::<KC, DC>(txn, range)
    }

    /// A walk over the entries whose keys lie in `range`, in decreasing key
    /// order, with leave to replace and delete the entry last yielded.
    pub fn rev_range_mut<'a, 'txn>(
        &self,
        txn: &'txn mut RwTxn,
        range: &KeyRange<'a, KC::EItem>,
    ) -> (r: Result<RwRevRange<'txn, KC, DC>, Error>) where
        KC: BytesEncode,

        requires
            old(txn).wf(),
            self.env_ident() == old(txn).env_ident(),
        ensures
            match encoded_range::<KC>(range.start@, range.end@) {
                Err(e) => fails_with(r, e) && *final(txn) == *old(txn),
                Ok(b) => if old(txn).has_table(self.dbi()) {
                    (r matches Ok(it) && rw_rev_walk(
                        &it,
                        old(txn),
                        self.dbi(),
                        range_entries(old(txn).table(self.dbi()), b.0, b.1).reverse(),
                    ) && *final(txn) == *final(it.cursor.txn))
                } else {
                    fails_with(r, Error::Engine(EngineError::UnknownTable))
                        && *final(txn) == *old(txn)
                },
            },
    {
        self.as_polymorph().rev_range_mut::<KC, DC>(txn, range)
    }

    /// A walk over the entries whose encoded keys start with the encoding of
    /// `prefix`, in increasing key order.
    pub fn prefix_iter<'a, 'txn>(
        &self,
        txn: &'txn RoTxn,
        prefix: &'a KC::EItem,
    ) -> (r: Result<RoPrefix<'txn, KC, DC>, Error>) where
        KC: BytesEncode,

        requires
            txn.wf(),
            self.env_ident() == txn.env_ident(),
        ensures
            match KC::encode_spec(prefix@) {
                Err(e) => fails_with(r, Error::Encoding(e)),
                Ok(p) => if txn.has_table(self.dbi()) {
                    (r matches Ok(it) && ro_walk(
                        &it,
                        txn,
                        self.dbi(),
                        prefix_entries(txn.table(self.dbi()), p),
                    ))
                } else {
                    fails_with(r, Error::Engine(EngineError::UnknownTable))
                },
            },
    {
        self.as_polymorph().prefix_iter::<KC, DC>(txn, prefix)
    }

    /// A walk over the entries whose encoded keys start with the encoding of
    /// `prefix`, in increasing key order, with leave to replace and delete
    /// the entry last yielded.
    pub fn prefix_iter_mut<'a, 'txn>(
        &self,
        txn: &'txn mut RwTxn,
        prefix: &'a KC::EItem,
    ) -> (r: Result<RwPrefix<'txn, KC, DC>, Error>) where
        KC: BytesEncode,

        requires
            old(txn).wf(),
            self.env_ident() == old(txn).env_ident(),
        ensures
            match KC::encode_spec(prefix@) {
                Err(e) => fails_with(r, Error::Encoding(e)) && *final(txn) == *old(txn),
                Ok(p) => if old(txn).has_table(self.dbi()) {
                    (r matches Ok(it) && rw_walk(
                        &it,
                        old(txn),
                        self.dbi(),
                        prefix_entries(old(txn).table(self.dbi()), p),
                    ) && *final(txn) == *final(it.cursor.txn))
                } else {
                    fails_with(r, Error::Engine(EngineError::UnknownTable))
                        && *final(txn) == *old(txn)
                },
            },
    {
        self.as_polymorph().prefix_iter_mut::<KC, DC>(txn, prefix)
    }

    /// A walk over the entries whose encoded keys start with the encoding of
    /// `prefix`, in decreasing key order.
    pub fn rev_prefix_iter<'a, 'txn>(
        &self,
        txn: &'txn RoTxn,
        prefix: &'a KC::EItem,
    ) -> (r: Result<RoRevPrefix<'txn, KC, DC>, Error>) where
        KC: BytesEncode,

        requires
            txn.wf(),
            self.env_ident() == txn.env_ident(),
        ensures
            match KC::encode_spec(prefix@) {
                Err(e) => fails_with(r, Error::Encoding(e)),
                Ok(p) => if txn.has_table(self.dbi()) {
                    (r matches Ok(it) && ro_rev_walk(
                        &it,
                        txn,
                        self.dbi(),
                        prefix_entries(txn.table(self.dbi()), p).reverse(),
                    ))
                } else {
                    fails_with(r, Error::Engine(EngineError::UnknownTable))
                },
            },
    {
        self.as_polymorph().rev_prefix_iter::<KC, DC>(txn, prefix)
    }

    /// A walk over the entries whose encoded keys start with the encoding of
    /// `prefix`, in decreasing key order, with leave to replace and delete
    /// the entry last yielded.
    pub fn rev_prefix_iter_mut<'a, 'txn>(
        &self,
        txn: &'txn mut RwTxn,
        prefix: &'a KC::EItem,
    ) -> (r: Result<RwRevPrefix<'txn, KC, DC>, Error>) where
        KC: BytesEncode,

        requires
            old(txn).wf(),
            self.env_ident() == old(txn).env_ident(),
        ensures
            match KC::encode_spec(prefix@) {
                Err(e) => fails_with(r, Error::Encoding(e)) && *final(txn) == *old(txn),
                Ok(p) => if old(txn).has_table(self.dbi()) {
                    (r matches Ok(it) && rw_rev_walk(
                        &it,
                        old(txn),
                        self.dbi(),
                        prefix_entries(old(txn).table(self.dbi()), p).reverse(),
                    ) && *final(txn) == *final(it.cursor.txn))
                } else {
                    fails_with(r, Error::Engine(EngineError::UnknownTable))
                        && *final(txn) == *old(txn)
                },
            },
    {
        self.as_polymorph().rev_prefix_iter_mut::<KC, DC>(txn, prefix)
    }

    /// Stores `data` under `key`, over any value that was there.
    pub fn put(
        &self,
        txn: &mut RwTxn,
        key: &KC::EItem,
        data: &DC::EItem,
    ) -> (r: Result<(), Error>) where
        KC: BytesEncode,
        DC: BytesEncode,

        requires
            old(txn).wf(),
            self.env_ident() == old(txn).env_ident(),
        ensures
            final(txn).wf(),
            put_spec::<KC, DC>(old(txn), final(txn), self.dbi(), key@, data@, r),
    {
        self.as_polymorph().put::<KC, DC>(txn, key, data)
    }

    /// Stores `data` under `key` at the end of the table. The key must be
    /// above every key of the table: one that is not is refused, and the
    /// table stays as it was.
    pub fn append(
        &self,
        txn: &mut RwTxn,
        key: &KC::EItem,
        data: &DC::EItem,
    ) -> (r: Result<(), Error>) where
        KC: BytesEncode,
        DC: BytesEncode,

        requires
            old(txn).wf(),
            self.env_ident() == old(txn).env_ident(),
        ensures
            final(txn).wf(),
            append_spec::<KC, DC>(old(txn), final(txn), self.dbi(), key@, data@, r),
    {
        self.as_polymorph().append::<KC, DC>(txn, key, data)
    }

    /// Removes the entry stored under `key` and tells whether there was one.
    pub fn delete(&self, txn: &mut RwTxn, key: &KC::EItem) -> (r: Result<
        bool,
        Error,
    >) where
        KC: BytesEncode,

        requires
            old(txn).wf(),
            self.env_ident() == old(txn).env_ident(),
        ensures
            final(txn).wf(),
            delete_spec::<KC>(old(txn), final(txn), self.dbi(), key@, r),
    {
        self.as_polymorph().delete::<KC>(txn, key)
    }

    /// Removes every entry of the table, in one engine operation.
    pub fn clear(&self, txn: &mut RwTxn) -> (r: Result<(), Error>)
        requires
            old(txn).wf(),
            self.env_ident() == old(txn).env_ident(),
        ensures
            final(txn).wf(),
            clear_spec(old(txn), final(txn), self.dbi(), r),
    {
        self.as_polymorph().clear(txn)
    }

    /// Removes the entries whose keys lie in `range` and returns how many
    /// they were: it walks the interval forward, decoding each key, and
    /// deletes each entry as it comes. A key that does not decode ends the
    /// walk with its decoding error; the entries before it are gone by then.
    pub fn delete_range<'a>(
        &self,
        txn: &mut RwTxn,
        range: &KeyRange<'a, KC::EItem>,
    ) -> (r: Result<usize, Error>) where
        KC: BytesEncode + BytesDecode,

        requires
            old(txn).wf(),
            self.env_ident() == old(txn).env_ident(),
        ensures
            final(txn).wf(),
            delete_range_spec::<KC>(old(txn), final(txn), self.dbi(), range.start@, range.end@, r),
    {
        self.as_polymorph().delete_range::<KC>(txn, range)
    }

    /// Reserves `data_size` bytes under `key`, lets `write_func` fill them,
    /// and fails unless it filled them exactly. The reserved bytes are
    /// zeros until written, and stay stored whatever the writer did.
    pub fn put_reserved<F>(
        &self,
        txn: &mut RwTxn,
        key: &KC::EItem,
        data_size: usize,
        write_func: F,
    ) -> (r: Result<(), Error>) where
        KC: BytesEncode,
        F: FnOnce(&mut ReservedSpace) -> Result<(), Error>,

        requires
            old(txn).wf(),
            self.env_ident() == old(txn).env_ident(),
            forall|space: &mut ReservedSpace|
                (*space).size() == data_size && (*space).filled() == 0 && (*space).bytes() == zeros(
                    data_size as nat,
                ) ==> #[trigger] call_requires(write_func, (space,)),
        ensures
            final(txn).wf(),
            match KC::encode_spec(key@) {
                Err(e) => fails_with(r, Error::Encoding(e)) && final(txn).same_as(old(txn)),
                Ok(kb) => if !old(txn).has_table(self.dbi()) {
                    fails_with(r, Error::Engine(EngineError::UnknownTable)) && final(txn).same_as(
                        old(txn),
                    )
                } else {
                    exists|space: &mut ReservedSpace, written: Result<(), Error>|
                        #![trigger call_ensures(write_func, (space,), written)]
                        (*space).size() == data_size && (*space).filled() == 0
                            && (*space).bytes() == zeros(data_size as nat)
                            && call_ensures(write_func, (space,), written)
                            && reserved_spec(
                            old(txn),
                            final(txn),
                            self.dbi(),
                            kb,
                            data_size,
                            *final(space),
                            written,
                            r,
                        )
                },
            },
    {
        self.as_polymorph().put_reserved::<KC, _>(txn, key, data_size, write_func)
    }

}

} // verus!
