//! Iterating over the entries of a block.

use std::sync::Arc;

use vstd::prelude::*;

use super::entry_fits;
use super::entry_key;
use super::entry_value_range;
use super::le_u16;
use super::le_u64;
use super::Block;
use super::BlockPosition;
use crate::key::compare_bytes;
use crate::key::KeyOrder;
use crate::key::KeySlice;
use crate::key::KeyVec;

verus! {

/// Iterates on a block.
pub struct BlockIterator {
    /// The internal `Block`, wrapped by an `Arc`
    block: Arc<Block>,
    /// The current key, empty represents the iterator is invalid
    key: KeyVec,
    /// the current value range in the block.data, corresponds to the current key
    value_range: (usize, usize),
    /// Current index of the key-value pair, should be in range of [0, num_of_elements)
    idx: usize,
    /// The first key in the block
    first_key: KeyVec,
}

/// Reads the two-byte number at `at`.
fn read_u16(data: &[u8], at: usize) -> (n: usize)
    requires
        at + 2 <= data.len(),
    ensures
        n == le_u16(data@, at as int),
{
    data[at] as usize + 0x100 * (data[at + 1] as usize)
}

/// Reads the eight-byte number at `at`.
fn read_u64(data: &[u8], at: usize) -> (n: u64)
    requires
        at + 8 <= data.len(),
    ensures
        n == le_u64(data@, at as int),
{
    data[at] as u64 + 0x100 * (data[at + 1] as u64) + 0x1_0000 * (data[at + 2] as u64) + 0x100_0000 * (data[at
        + 3] as u64) + 0x1_0000_0000 * (data[at + 4] as u64) + 0x100_0000_0000 * (data[at + 5] as u64)
        + 0x1_0000_0000_0000 * (data[at + 6] as u64) + 0x100_0000_0000_0000 * (data[at + 7] as u64)
}

impl BlockIterator {
    /// The block that is iterated on.
    pub closed spec fn block(&self) -> Block {
        *self.block
    }

    /// Where the iterator stands.
    pub closed spec fn position(&self) -> BlockPosition {
        BlockPosition {
            idx: self.idx as int,
            key: self.key@,
            value_range: (self.value_range.0 as int, self.value_range.1 as int),
        }
    }

    /// Once the first key of the block has been looked up, it is the block's.
    pub closed spec fn inv(&self) -> bool {
        self.first_key@.key.len() > 0 ==> self.block().header_fits() && self.first_key@.key == self.block().first_key()
    }

    /// The first key has been looked up, unless there is no entry.
    pub closed spec fn loaded(&self) -> bool {
        self.block().offsets.len() > 0 ==> self.first_key@.key == self.block().first_key()
    }

    fn new(block: Arc<Block>) -> (it: Self)
        ensures
            it.inv(),
            it.block() == *block,
            it.position() == (BlockPosition { idx: 0, key: crate::key::empty_key(), value_range: (0, 0) }),
    {
        Self { block, key: KeyVec::new(), value_range: (0, 0), idx: 0, first_key: KeyVec::new() }
    }

    fn fetch_first_key(&mut self)
        requires
            old(self).inv(),
            old(self).block().header_fits(),
        ensures
            final(self).inv(),
            final(self).loaded(),
            final(self).block == old(self).block,
            final(self).position() == old(self).position(),
            final(self).first_key@.key == old(self).block().first_key(),
    {
        if self.first_key.is_empty() {
            let (first_key, _) = self.decode_entry(&self.block.data, 0);
            assert(self.first_key@.key =~= Seq::empty());
            self.first_key = first_key;
        }
    }

    /// Creates a block iterator and seek to the first entry.
    pub fn create_and_seek_to_first(block: Arc<Block>) -> (it: Self)
        requires
            block.offsets.len() > 0 ==> block.header_fits() && block.entry_fits(0),
        ensures
            it.inv(),
            it.loaded(),
            it.block() == *block,
            it.position() == block.position_at(0),
    {
        let mut it = BlockIterator::new(block);
        it.seek_to_first();
        it
    }

    /// Creates a block iterator and seek to the first key that >= `key`.
    pub fn create_and_seek_to_key(block: Arc<Block>, key: KeySlice<'_>) -> (it: Self)
        requires
            block.header_fits(),
            block.all_entries_fit(),
        ensures
            it.inv(),
            it.loaded(),
            it.block() == *block,
            it.position() == block.position_at(it.position().idx),
            block.lower_bound(it.position().idx, key@.key),
            block.sorted() ==> block.splits_at(it.position().idx, key@.key),
    {
        let mut it = BlockIterator::new(block);
        it.seek_to_key(key);
        it
    }

    /// Returns the key of the current entry.
    pub fn key(&self) -> (key: KeySlice<'_>)
        ensures
            key@ == self.position().key,
    {
        self.key.as_key_slice()
    }

    /// Returns the value of the current entry.
    pub fn value(&self) -> (value: &[u8])
        requires
            self.position().value_range.0 <= self.position().value_range.1 <= self.block().data.len(),
        ensures
            value@ == self.block().data@.subrange(self.position().value_range.0, self.position().value_range.1),
    {
        &self.block.data[self.value_range.0..self.value_range.1]
    }

    /// Returns true if the iterator is valid.
    pub fn is_valid(&self) -> (valid: bool)
        ensures
            valid == (self.position().key.key.len() > 0),
    {
        !self.key.is_empty()
    }

    /// Seeks to the first key in the block.
    pub fn seek_to_first(&mut self)
        requires
            old(self).inv(),
            old(self).block().offsets.len() > 0 ==> old(self).block().header_fits() && old(self).block().entry_fits(0),
        ensures
            final(self).inv(),
            final(self).loaded(),
            final(self).block() == old(self).block(),
            final(self).position() == old(self).block().position_at(0),
    {
        if self.block.offsets.is_empty() {
            self.key = KeyVec::new();
            self.value_range = (0, 0);
            self.idx = 0;
            return;
        }
        self.fetch_first_key();
        let offset: usize = self.block.offsets[0] as usize;
        let (key, val_range) = self.decode_entry(&self.block.data, offset);

        self.key = key;
        self.value_range = val_range;
        self.idx = 0;
    }

    /// Move to the next key in the block.
    pub fn next(&mut self)
        requires
            old(self).inv(),
            old(self).loaded(),
            old(self).position().idx < usize::MAX,
            old(self).position().idx + 1 < old(self).block().offsets.len() ==> old(self).block().entry_fits(
                old(self).position().idx + 1,
            ),
        ensures
            final(self).inv(),
            final(self).loaded(),
            final(self).block() == old(self).block(),
            final(self).position() == old(self).block().position_at(old(self).position().idx + 1),
    {
        self.idx += 1;
        if self.idx >= self.block.offsets.len() {
            self.key = KeyVec::new();
            self.value_range = (0, 0);
            return;
        }
        let offset: usize = self.block.offsets[self.idx] as usize;
        let (key, value_range) = self.decode_entry(&self.block.data, offset);
        self.key = key;
        self.value_range = value_range;
    }

    /// Seek to the first key that >= `key`. User keys are compared: the timestamp of `key` plays no
    /// part, and of several versions the first one is found.
    /// Note: You should assume the key-value pairs in the block are sorted when being added by
    /// callers.
    pub fn seek_to_key(&mut self, key: KeySlice<'_>)
        requires
            old(self).inv(),
            old(self).block().header_fits(),
            old(self).block().all_entries_fit(),
        ensures
            final(self).inv(),
            final(self).loaded(),
            final(self).block() == old(self).block(),
            final(self).position() == old(self).block().position_at(final(self).position().idx),
            old(self).block().lower_bound(final(self).position().idx, key@.key),
            old(self).block().sorted() ==> old(self).block().splits_at(final(self).position().idx, key@.key),
    {
        self.fetch_first_key();

        let mut l: usize = 0;
        let mut r: usize = self.block.offsets.len();

        while l < r
            invariant
                self.inv(),
                self.loaded(),
                self.block == old(self).block,
                self.block().all_entries_fit(),
                l <= r <= self.block().offsets.len(),
                r < self.block().offsets.len() ==> !crate::key::bytes_before(self.block().key_at(r as int).key, key@.key),
                l > 0 ==> crate::key::bytes_before(self.block().key_at(l - 1).key, key@.key),
            decreases r - l,
        {
            let m: usize = l + (r - l) / 2;
            assert(self.block().entry_fits(m as int));
            let offset: usize = self.block.offsets[m] as usize;
            let (mid_key, _) = self.decode_entry(&self.block.data, offset);
            match compare_bytes(mid_key.key_ref(), key.key_ref()) {
                KeyOrder::Less => {
                    l = m + 1;
                },
                _ => {
                    r = m;
                },
            }
        }
        proof {
            if self.block().sorted() {
                self.block().lower_bound_splits(l as int, key@.key);
            }
        }
        if l < self.block.offsets.len() {
            assert(self.block().entry_fits(l as int));
            let offset: usize = self.block.offsets[l] as usize;
            let (key, val_range) = self.decode_entry(&self.block.data, offset);
            self.idx = l;
            self.key = key;
            self.value_range = val_range;
        } else {
            self.key = KeyVec::new();
            self.value_range = (0, 0);
            self.idx = l;
        }
    }

    fn decode_entry(&self, data: &[u8], offset: usize) -> (entry: (KeyVec, (usize, usize)))
        requires
            entry_fits(data@, offset as int, self.first_key@.key.len()),
        ensures
            entry.0@ == entry_key(data@, offset as int, self.first_key@.key),
            entry.1.0 == entry_value_range(data@, offset as int).0,
            entry.1.1 == entry_value_range(data@, offset as int).1,
    {
        let overlap: usize = read_u16(data, offset);
        let rest_len: usize = read_u16(data, offset + 2);
        let rest_start: usize = offset + 4;
        let rest_end: usize = rest_start + rest_len;

        let mut full_key: Vec<u8> = Vec::new();
        full_key.extend_from_slice(&self.first_key.key_ref()[0..overlap]);
        full_key.extend_from_slice(&data[rest_start..rest_end]);
        let ts: u64 = read_u64(data, rest_end);

        let vlen_offset: usize = rest_end + 8;
        let vlen: usize = read_u16(data, vlen_offset);
        let value_start: usize = vlen_offset + 2;
        let value_end: usize = value_start + vlen;

        assert(full_key@ =~= entry_key(data@, offset as int, self.first_key@.key).key);
        (KeyVec::from_vec_with_ts(full_key, ts), (value_start, value_end))
    }
}

} // verus!
