//! Sorted tables: what the library asks of them.

use std::sync::Arc;

use vstd::prelude::*;

use crate::error::StorageError;
use crate::fault::Fault;
use crate::iterators::StorageIterator;
use crate::key::KeySlice;
use crate::key::KeyView;
use crate::merge::Entry;

verus! {

/// A stored table of entries.
pub trait Table: Sized {
    /// Iterates over the entries of the table.
    type Iter: 'static + for<'a> StorageIterator<Model = KeyView, KeyType<'a> = KeySlice<'a>>;

    /// The entries of the table.
    spec fn entries(&self) -> Seq<Entry<KeyView>>;

    /// The number under which the table is stored.
    spec fn id(&self) -> usize;

    /// The error that opening the table ends in.
    spec fn open_error(&self) -> Option<Seq<char>>;

    /// Where reading the table breaks off once it is open.
    spec fn fault(&self) -> Option<Fault>;

    /// The number under which the table is stored.
    fn sst_id(&self) -> (id: usize)
        ensures
            id == self.id(),
    ;

    /// Opens the table at its first entry.
    fn create_and_seek_to_first(table: Arc<Self>) -> (result: Result<Self::Iter, StorageError>)
        ensures
            match table.open_error() {
                Some(error) => result matches Err(e) && e@ == error,
                None => result matches Ok(iter) && {
                    &&& iter.inv()
                    &&& iter.entries() == table.entries()
                    &&& iter.fault() == table.fault()
                },
            },
    ;
}

/// What each of the tables holds.
pub open spec fn contents<T: Table>(tables: Seq<Arc<T>>) -> Seq<Seq<Entry<KeyView>>> {
    tables.map_values(|table: Arc<T>| (*table).entries())
}

/// The numbers of the tables.
pub open spec fn ids<T: Table>(tables: Seq<Arc<T>>) -> Seq<usize> {
    tables.map_values(|table: Arc<T>| (*table).id())
}

/// Builds a table from entries that are added in order.
pub trait TableBuilder: Sized {
    /// The tables that are built.
    type Table: 'static + Table;

    /// Where finished tables are put.
    type Store;

    /// The builder's own invariant.
    spec fn inv(&self) -> bool;

    /// The entries added so far.
    spec fn entries(&self) -> Seq<Entry<KeyView>>;

    /// The size that the blocks of the table are meant to have.
    spec fn block_size(&self) -> usize;

    /// The estimated size of a table of these entries.
    spec fn size_of(block_size: usize, entries: Seq<Entry<KeyView>>) -> usize;

    /// The error that putting a table of these entries into the store under this number ends in.
    spec fn build_error(
        block_size: usize,
        entries: Seq<Entry<KeyView>>,
        sst_id: usize,
        store: Self::Store,
    ) -> Option<Seq<char>>;

    /// Starts a table.
    fn new(block_size: usize) -> (builder: Self)
        ensures
            builder.inv(),
            builder.block_size() == block_size,
            builder.entries() == Seq::<Entry<KeyView>>::empty(),
    ;

    /// The estimated size of the table so far.
    fn estimated_size(&self) -> (size: usize)
        requires
            self.inv(),
        ensures
            size == Self::size_of(self.block_size(), self.entries()),
    ;

    /// Adds an entry behind those added before.
    fn add(&mut self, key: KeySlice<'_>, value: &[u8])
        requires
            old(self).inv(),
        ensures
            final(self).inv(),
            final(self).block_size() == old(self).block_size(),
            final(self).entries() == old(self).entries().push(Entry { key: key@, value: value@ }),
    ;

    /// Finishes the table and puts it into the store.
    fn build(self, sst_id: usize, store: &Self::Store) -> (result: Result<Self::Table, StorageError>)
        requires
            self.inv(),
        ensures
            match Self::build_error(self.block_size(), self.entries(), sst_id, *store) {
                Some(error) => result matches Err(e) && e@ == error,
                None => result matches Ok(table) && table.id() == sst_id && table.entries() == self.entries(),
            },
    ;
}

} // verus!
