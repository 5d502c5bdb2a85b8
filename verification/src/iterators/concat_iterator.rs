//! Reading tables one after another.

use std::sync::Arc;

use vstd::prelude::*;

use super::StorageIterator;
use crate::error::StorageError;
use crate::fault::concat_fault;
use crate::fault::opening_error;
use crate::fault::tables_fault;
use crate::fault::Fault;
use crate::key::KeySlice;
use crate::key::KeyView;
use crate::merge::rest;
use crate::merge::Entry;
use crate::table::contents;
use crate::table::Table;

verus! {

/// Reads tables one after another. A table is opened only when the ones before it are used up.
pub struct SstConcatIterator<T: Table> {
    current: Option<T::Iter>,
    next_sst_idx: usize,
    sstables: Vec<Arc<T>>,
}

impl<T: 'static + Table> SstConcatIterator<T> {
    spec fn current_entries(&self) -> Seq<Entry<KeyView>> {
        match self.current {
            Some(iter) => iter.entries(),
            None => Seq::empty(),
        }
    }

    spec fn current_fault(&self) -> Option<Fault> {
        match self.current {
            Some(iter) => iter.fault(),
            None => None,
        }
    }

    /// The tables that are not open yet.
    spec fn unopened(&self) -> Seq<Arc<T>> {
        self.sstables@.skip(self.next_sst_idx as int)
    }

    spec fn current_inv(&self) -> bool {
        &&& self.next_sst_idx <= self.sstables.len()
        &&& self.current matches Some(iter) ==> iter.inv()
    }

    /// Opens further tables until one has an entry or none is left.
    fn move_until_valid(&mut self) -> (result: Result<(), StorageError>)
        requires
            old(self).current_inv(),
        ensures
            if old(self).current_entries().len() == 0 && opening_error(old(self).unopened()) is Some {
                result matches Err(e) && e@ == opening_error(old(self).unopened())->0
            } else {
                &&& result is Ok
                &&& final(self).inv()
                &&& final(self).entries() == old(self).entries()
                &&& final(self).fault() == old(self).fault()
            },
    {
        let ghost all = self.entries();
        let ghost error = opening_error(self.unopened());
        loop
            invariant
                self.current_inv(),
                self.entries() == all,
                self.fault() == old(self).fault(),
                all == old(self).entries(),
                error == opening_error(old(self).unopened()),
                self.current_entries().len() == 0 ==> old(self).current_entries().len() == 0 && opening_error(
                    self.unopened(),
                ) == error,
                self.current_entries().len() > 0 ==> old(self).current_entries().len() > 0 || error is None,
            decreases self.sstables.len() - self.next_sst_idx,
        {
            let exhausted = match &self.current {
                Some(iter) => !iter.is_valid(),
                None => true,
            };
            if !exhausted {
                return Ok(());
            }
            if self.next_sst_idx >= self.sstables.len() {
                self.current = None;
                return Ok(());
            }
            let ghost left = self.unopened();
            assert(left.drop_first() =~= self.sstables@.skip(self.next_sst_idx + 1));
            assert(contents(left).drop_first() =~= contents(left.drop_first()));
            let table = self.sstables[self.next_sst_idx].clone();
            assert(left[0] == table);
            let iter = T::create_and_seek_to_first(table)?;
            self.current = Some(iter);
            self.next_sst_idx = self.next_sst_idx + 1;
            assert(self.entries() =~= all);
        }
    }

    pub fn create_and_seek_to_first(sstables: Vec<Arc<T>>) -> (result: Result<Self, StorageError>)
        ensures
            match opening_error(sstables@) {
                Some(error) => result matches Err(e) && e@ == error,
                None => result matches Ok(iter) && {
                    &&& iter.inv()
                    &&& iter.entries() == contents(sstables@).flatten()
                    &&& iter.fault() == tables_fault(sstables@)
                },
            },
    {
        let mut iter = SstConcatIterator { current: None, next_sst_idx: 0, sstables };
        assert(iter.unopened() =~= sstables@);
        assert(iter.entries() =~= contents(sstables@).flatten());
        iter.move_until_valid()?;
        Ok(iter)
    }
}

impl<T: 'static + Table> StorageIterator for SstConcatIterator<T> {
    type Model = KeyView;

    type KeyType<'a> = KeySlice<'a>;

    closed spec fn inv(&self) -> bool {
        &&& self.current_inv()
        &&& match self.current {
            Some(iter) => iter.entries().len() > 0,
            None => self.next_sst_idx == self.sstables.len(),
        }
    }

    closed spec fn entries(&self) -> Seq<Entry<KeyView>> {
        self.current_entries() + contents(self.unopened()).flatten()
    }

    closed spec fn fault(&self) -> Option<Fault> {
        concat_fault(self.current_entries(), self.current_fault(), self.unopened())
    }

    fn key(&self) -> (key: KeySlice<'_>) {
        match &self.current {
            Some(iter) => iter.key(),
            None => {
                assert(false);
                KeySlice::from_slice(&[], 0)
            },
        }
    }

    fn value(&self) -> (value: &[u8]) {
        match &self.current {
            Some(iter) => iter.value(),
            None => {
                assert(false);
                &[]
            },
        }
    }

    fn is_valid(&self) -> (valid: bool) {
        self.current.is_some()
    }

    fn next(&mut self) -> (result: Result<(), StorageError>) {
        match &mut self.current {
            Some(iter) => {
                iter.next()?;
            },
            None => {
                return Ok(());
            },
        }
        assert(self.entries() =~= rest(old(self).entries()));
        self.move_until_valid()
    }
}

} // verus!
