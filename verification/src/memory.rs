//! Tables that are held in memory.

use std::sync::Arc;

use vstd::prelude::*;

use crate::error::StorageError;
use crate::fault::Fault;
use crate::iterators::StorageIterator;
use crate::key::KeySlice;
use crate::key::KeyVec;
use crate::key::KeyView;
use crate::merge::rest;
use crate::merge::Entry;
use crate::table::Table;
use crate::table::TableBuilder;

verus! {

/// A key with the value stored under it.
pub struct StoredEntry {
    key: KeyVec,
    value: Vec<u8>,
}

impl View for StoredEntry {
    type V = Entry<KeyView>;

    closed spec fn view(&self) -> Entry<KeyView> {
        Entry { key: self.key@, value: self.value@ }
    }
}

/// A table that is held in memory. One of its entries may be damaged: an iterator cannot come to stand
/// there.
pub struct InMemoryTable {
    id: usize,
    entries: Vec<StoredEntry>,
    damaged: Option<Damage>,
}

/// Which entry is damaged, and the error that reading it ends in.
pub struct Damage {
    pub idx: usize,
    pub message: String,
}

/// Where moving on from entry `idx` of `len` breaks off: at the damaged one.
pub open spec fn damage_fault(damaged: Option<Damage>, idx: int, len: nat) -> Option<Fault> {
    match damaged {
        Some(d) => if idx < d.idx < len {
            Some(Fault { after: (d.idx - idx - 1) as nat, error: d.message@ })
        } else {
            None
        },
        None => None,
    }
}

impl InMemoryTable {
    /// The damaged entry.
    pub closed spec fn damaged(&self) -> Option<Damage> {
        self.damaged
    }

    /// How many entries the table has.
    pub fn len(&self) -> (n: usize)
        ensures
            n == self.entries().len(),
    {
        self.entries.len()
    }

    /// The table with a damaged entry.
    pub fn with_damage(self, damage: Damage) -> (table: Self)
        ensures
            table.id() == self.id(),
            table.entries() == self.entries(),
            table.damaged() == Some(damage),
    {
        InMemoryTable { id: self.id, entries: self.entries, damaged: Some(damage) }
    }
}

impl Table for InMemoryTable {
    type Iter = InMemoryTableIterator;

    closed spec fn entries(&self) -> Seq<Entry<KeyView>> {
        self.entries@.map_values(|entry: StoredEntry| entry@)
    }

    closed spec fn id(&self) -> usize {
        self.id
    }

    open spec fn open_error(&self) -> Option<Seq<char>> {
        match self.damaged() {
            Some(d) => if d.idx == 0 && self.entries().len() > 0 {
                Some(d.message@)
            } else {
                None
            },
            None => None,
        }
    }

    open spec fn fault(&self) -> Option<Fault> {
        damage_fault(self.damaged(), 0, self.entries().len())
    }

    fn sst_id(&self) -> (id: usize) {
        self.id
    }

    fn create_and_seek_to_first(table: Arc<Self>) -> (result: Result<Self::Iter, StorageError>) {
        if let Some(damage) = &table.damaged {
            if damage.idx == 0 && table.entries.len() > 0 {
                return Err(StorageError { message: damage.message.clone() });
            }
        }
        let iter = InMemoryTableIterator { table, idx: 0 };
        assert(iter.entries() =~= table.entries());
        Ok(iter)
    }
}

/// Iterates over a table that is held in memory.
pub struct InMemoryTableIterator {
    table: Arc<InMemoryTable>,
    idx: usize,
}

impl StorageIterator for InMemoryTableIterator {
    type Model = KeyView;

    type KeyType<'a> = KeySlice<'a>;

    closed spec fn inv(&self) -> bool {
        self.idx <= self.table.entries.len()
    }

    closed spec fn entries(&self) -> Seq<Entry<KeyView>> {
        self.table.entries().skip(self.idx as int)
    }

    closed spec fn fault(&self) -> Option<Fault> {
        damage_fault(self.table.damaged, self.idx as int, self.table.entries@.len())
    }

    fn key(&self) -> (key: KeySlice<'_>) {
        self.table.entries[self.idx].key.as_key_slice()
    }

    fn value(&self) -> (value: &[u8]) {
        self.table.entries[self.idx].value.as_slice()
    }

    fn is_valid(&self) -> (valid: bool) {
        self.idx < self.table.entries.len()
    }

    fn next(&mut self) -> (result: Result<(), StorageError>) {
        if self.idx < self.table.entries.len() {
            let next: usize = self.idx + 1;
            if let Some(damage) = &self.table.damaged {
                if next == damage.idx && next < self.table.entries.len() {
                    return Err(StorageError { message: damage.message.clone() });
                }
            }
            self.idx = next;
        }
        assert(self.entries() =~= rest(old(self).entries()));
        Ok(())
    }
}

/// The bytes that the entries take up in a block, were none to share a part of its key: fourteen for
/// each, and its user key and value.
pub open spec fn stored_size(entries: Seq<Entry<KeyView>>) -> nat
    decreases entries.len(),
{
    if entries.len() == 0 {
        0
    } else {
        stored_size(entries.drop_last()) + 14 + entries.last().key.key.len() + entries.last().value.len()
    }
}

/// Builds a table in memory.
pub struct InMemoryTableBuilder {
    block_size: usize,
    entries: Vec<StoredEntry>,
    size: usize,
}

/// The sum, or the largest number where that is too large.
fn capped_sum(a: usize, b: usize) -> (sum: usize)
    ensures
        sum == if a + b <= usize::MAX {
            a + b
        } else {
            usize::MAX as int
        },
{
    if b <= usize::MAX - a {
        a + b
    } else {
        usize::MAX
    }
}

impl TableBuilder for InMemoryTableBuilder {
    type Table = InMemoryTable;

    /// The largest size that a table may have, if there is a limit.
    type Store = Option<usize>;

    closed spec fn entries(&self) -> Seq<Entry<KeyView>> {
        self.entries@.map_values(|entry: StoredEntry| entry@)
    }

    closed spec fn inv(&self) -> bool {
        self.size == Self::size_of(self.block_size, self.entries())
    }

    closed spec fn block_size(&self) -> usize {
        self.block_size
    }

    open spec fn size_of(block_size: usize, entries: Seq<Entry<KeyView>>) -> usize {
        if stored_size(entries) <= usize::MAX {
            stored_size(entries) as usize
        } else {
            usize::MAX
        }
    }

    open spec fn build_error(
        block_size: usize,
        entries: Seq<Entry<KeyView>>,
        sst_id: usize,
        store: Option<usize>,
    ) -> Option<Seq<char>> {
        match store {
            Some(limit) => if Self::size_of(block_size, entries) > limit {
                Some("table too large"@)
            } else {
                None
            },
            None => None,
        }
    }

    fn new(block_size: usize) -> (builder: Self) {
        let entries: Vec<StoredEntry> = Vec::new();
        let builder = InMemoryTableBuilder { block_size, entries, size: 0 };
        assert(builder.entries() =~= Seq::empty());
        builder
    }

    fn estimated_size(&self) -> (size: usize) {
        self.size
    }

    fn add(&mut self, key: KeySlice<'_>, value: &[u8]) {
        let mut user_key: Vec<u8> = Vec::new();
        user_key.extend_from_slice(key.key_ref());
        let mut stored: Vec<u8> = Vec::new();
        stored.extend_from_slice(value);
        assert(user_key@ =~= key@.key);
        assert(stored@ =~= value@);
        self.size = capped_sum(capped_sum(capped_sum(self.size, 14), user_key.len()), stored.len());
        self.entries.push(StoredEntry { key: KeyVec::from_vec_with_ts(user_key, key.ts()), value: stored });
        proof {
            let entry = Entry { key: key@, value: value@ };
            assert(self.entries() =~= old(self).entries().push(entry));
            assert(self.entries().drop_last() =~= old(self).entries());
        }
    }

    fn build(self, sst_id: usize, store: &Option<usize>) -> (result: Result<InMemoryTable, StorageError>)
        ensures
            result matches Ok(table) ==> table.damaged() is None,
    {
        if let Some(limit) = store {
            if self.size > *limit {
                return Err(StorageError { message: "table too large".to_string() });
            }
        }
        Ok(InMemoryTable { id: sst_id, entries: self.entries, damaged: None })
    }
}

} // verus!
