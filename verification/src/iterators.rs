//! Iterators over stored entries.

pub mod concat_iterator;
pub mod merge_iterator;
pub mod two_merge_iterator;

use vstd::prelude::*;

use crate::error::StorageError;
use crate::fault::rest_fault;
use crate::fault::step_error;
use crate::fault::Fault;
use crate::key::KeyModel;
use crate::key::StorageKey;
use crate::merge::rest;
use crate::merge::Entry;

verus! {

/// An iterator over entries. It stands at its first remaining entry, and is valid while there is one.
pub trait StorageIterator: Sized {
    /// What the keys are, free of borrows.
    type Model: KeyModel;

    /// The keys, as they are handed out.
    type KeyType<'a>: StorageKey<Model = Self::Model> where Self: 'a;

    /// The iterator's own invariant.
    spec fn inv(&self) -> bool;

    /// The remaining entries, the current one first.
    spec fn entries(&self) -> Seq<Entry<Self::Model>>;

    /// Where moving on breaks off.
    spec fn fault(&self) -> Option<Fault>;

    /// The key of the current entry.
    fn key(&self) -> (key: Self::KeyType<'_>)
        requires
            self.inv(),
            self.entries().len() > 0,
        ensures
            key.model() == self.entries()[0].key,
    ;

    /// The value of the current entry.
    fn value(&self) -> (value: &[u8])
        requires
            self.inv(),
            self.entries().len() > 0,
        ensures
            value@ == self.entries()[0].value,
    ;

    /// Whether there is a current entry.
    fn is_valid(&self) -> (valid: bool)
        requires
            self.inv(),
        ensures
            valid == (self.entries().len() > 0),
    ;

    /// Moves on to the next entry. After an error the iterator is not to be used any more.
    fn next(&mut self) -> (result: Result<(), StorageError>)
        requires
            old(self).inv(),
        ensures
            match step_error(old(self).entries(), old(self).fault()) {
                Some(error) => result matches Err(e) && e@ == error,
                None => {
                    &&& result is Ok
                    &&& final(self).inv()
                    &&& final(self).entries() == rest(old(self).entries())
                    &&& final(self).fault() == rest_fault(old(self).entries(), old(self).fault())
                },
            },
    ;
}

} // verus!
