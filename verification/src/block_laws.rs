//! What a block iterator shows, in terms of the bytes of the block.

use std::sync::Arc;

use vstd::prelude::*;

use crate::block::iterator::BlockIterator;
use crate::block::Block;
use crate::key::KeySlice;
use crate::key_laws::bytes_are_ordered_lexicographically;
use crate::key_laws::lexicographic;

verus! {

/// Two bytes as a number, the low one first.
pub open spec fn two_bytes(data: Seq<u8>, at: int) -> int {
    data[at] as int + 256 * (data[at + 1] as int)
}

/// Eight bytes as a number, the low ones first.
pub open spec fn eight_bytes(data: Seq<u8>, at: int) -> int {
    two_bytes(data, at) + 65536 * two_bytes(data, at + 2) + 4294967296 * two_bytes(data, at + 4) + 281474976710656
        * two_bytes(data, at + 6)
}

/// The user key at the start of the block.
pub open spec fn stored_first_key(block: Block) -> Seq<u8> {
    block.data@.subrange(4, 4 + two_bytes(block.data@, 2))
}

/// Where the rest of the user key of entry `i` ends.
pub open spec fn stored_key_end(block: Block, i: int) -> int {
    block.offsets@[i] + 4 + two_bytes(block.data@, block.offsets@[i] + 2)
}

/// The user key of entry `i`: what it shares with the first one, and the rest of it.
pub open spec fn stored_key(block: Block, i: int) -> Seq<u8> {
    stored_first_key(block).take(two_bytes(block.data@, block.offsets@[i] as int)) + block.data@.subrange(
        block.offsets@[i] + 4,
        stored_key_end(block, i),
    )
}

/// The timestamp of entry `i`.
pub open spec fn stored_ts(block: Block, i: int) -> int {
    eight_bytes(block.data@, stored_key_end(block, i))
}

/// The value of entry `i`.
pub open spec fn stored_value(block: Block, i: int) -> Seq<u8> {
    let start = stored_key_end(block, i) + 10;
    block.data@.subrange(start, start + two_bytes(block.data@, start - 2))
}

/// The bytes from `at` on hold an entry up to the value, which shares no more than `shared` bytes.
pub open spec fn holds_entry(data: Seq<u8>, at: int, shared: int) -> bool {
    &&& at + 14 <= data.len()
    &&& at + 14 + two_bytes(data, at + 2) <= data.len()
    &&& two_bytes(data, at) <= shared
    &&& at + 14 + two_bytes(data, at + 2) + two_bytes(data, at + 12 + two_bytes(data, at + 2)) <= usize::MAX
}

/// The iterator shows entry `i`.
pub open spec fn shows_entry(it: BlockIterator, block: Block, i: int) -> bool {
    &&& it.block() == block
    &&& it.position().idx == i
    &&& forall|key: KeySlice<'_>| #[trigger]
        call_ensures(BlockIterator::key, (&it,), key) ==> key@.key == stored_key(block, i) && key@.ts == stored_ts(
            block,
            i,
        )
    &&& forall|value: &[u8]| #[trigger]
        call_ensures(BlockIterator::value, (&it,), value) ==> value@ == stored_value(block, i)
    &&& forall|valid: bool| #[trigger]
        call_ensures(BlockIterator::is_valid, (&it,), valid) ==> valid == (stored_key(block, i).len() > 0)
}

/// The iterator shows that there is no entry `i`.
pub open spec fn shows_nothing(it: BlockIterator, block: Block, i: int) -> bool {
    &&& it.block() == block
    &&& it.position().idx == i
    &&& forall|key: KeySlice<'_>| #[trigger]
        call_ensures(BlockIterator::key, (&it,), key) ==> key@.key.len() == 0 && key@.ts == 0
    &&& forall|value: &[u8]| #[trigger] call_ensures(BlockIterator::value, (&it,), value) ==> value@.len() == 0
    &&& forall|valid: bool| #[trigger] call_ensures(BlockIterator::is_valid, (&it,), valid) ==> !valid
}

/// The iterator shows entry `i`, or that there is none.
pub open spec fn shows(it: BlockIterator, block: Block, i: int) -> bool {
    if i < block.offsets@.len() {
        shows_entry(it, block, i)
    } else {
        shows_nothing(it, block, i)
    }
}

proof fn position_shows(it: BlockIterator, block: Block, i: int)
    requires
        0 <= i,
        it.block() == block,
        it.position() == block.position_at(i),
        i < block.offsets@.len() ==> two_bytes(block.data@, 0) == 0 && 0 <= stored_ts(block, i) <= u64::MAX,
    ensures
        shows(it, block, i),
{
    let data = block.data@;
    let none = Seq::<u8>::empty();
    if i < block.offsets@.len() {
        assert(none.take(0) + data.subrange(4, 4 + two_bytes(data, 2)) =~= stored_first_key(block));
        assert(block.first_key() == stored_first_key(block));
        let end = stored_key_end(block, i);
        assert(crate::block::le_u64(data, end) == eight_bytes(data, end));
    } else {
        assert(data.subrange(0, 0) =~= none);
    }
}

proof fn ts_fits(data: Seq<u8>, at: int)
    ensures
        0 <= eight_bytes(data, at) <= u64::MAX,
{
}

/// An iterator that is put at the first entry shows that, or that there is none.
pub proof fn created_iterator_shows_first_entry(block: Arc<Block>, it: BlockIterator)
    requires
        call_ensures(BlockIterator::create_and_seek_to_first, (block,), it),
        two_bytes(block.data@, 0) == 0,
    ensures
        shows(it, *block, 0),
{
    let b = it.block();
    if block.offsets@.len() > 0 {
        ts_fits(block.data@, stored_key_end(b, 0));
    }
    position_shows(it, b, 0);
}

/// Going back to the first entry shows that again.
pub proof fn seek_to_first_shows_first_entry(it: &mut BlockIterator)
    requires
        call_ensures(BlockIterator::seek_to_first, (it,), ()),
        two_bytes(it.block().data@, 0) == 0,
    ensures
        shows(*final(it), old(it).block(), 0),
{
    let block = it.block();
    if block.offsets@.len() > 0 {
        ts_fits(block.data@, stored_key_end(block, 0));
    }
    position_shows(*final(it), block, 0);
}

/// Moving on shows the entry behind the one shown before.
pub proof fn next_shows_next_entry(it: &mut BlockIterator)
    requires
        call_ensures(BlockIterator::next, (it,), ()),
        0 <= it.position().idx,
        two_bytes(it.block().data@, 0) == 0,
    ensures
        shows(*final(it), old(it).block(), old(it).position().idx + 1),
{
    let block = it.block();
    let i = it.position().idx + 1;
    if i < block.offsets@.len() {
        ts_fits(block.data@, stored_key_end(block, i));
    }
    position_shows(*final(it), block, i);
}

/// The user keys of the block do not go down.
pub open spec fn stored_in_order(block: Block) -> bool {
    forall|i: int, j: int|
        0 <= i < j < block.offsets@.len() ==> !lexicographic(
            #[trigger] stored_key(block, j),
            #[trigger] stored_key(block, i),
        )
}

/// Entry `i` is the first whose user key is not smaller than `key`; there may be none.
pub open spec fn first_not_smaller(block: Block, key: Seq<u8>, i: int) -> bool {
    &&& 0 <= i <= block.offsets@.len()
    &&& forall|j: int| 0 <= j < i ==> lexicographic(#[trigger] stored_key(block, j), key)
    &&& forall|j: int| i <= j < block.offsets@.len() ==> !lexicographic(#[trigger] stored_key(block, j), key)
}

proof fn keys_are_stored(block: Block)
    requires
        two_bytes(block.data@, 0) == 0,
    ensures
        forall|i: int| 0 <= i < block.offsets@.len() ==> (#[trigger] block.key_at(i)).key == stored_key(block, i),
{
    let data = block.data@;
    let none = Seq::<u8>::empty();
    assert(none.take(0) + data.subrange(4, 4 + two_bytes(data, 2)) =~= stored_first_key(block));
    assert(block.first_key() == stored_first_key(block));
}

proof fn lower_bound_is_first_not_smaller(block: Block, key: Seq<u8>, i: int)
    requires
        two_bytes(block.data@, 0) == 0,
        stored_in_order(block),
        block.lower_bound(i, key),
    ensures
        first_not_smaller(block, key, i),
{
    keys_are_stored(block);
    assert(block.sorted()) by {
        assert forall|j: int, k: int| 0 <= j < k < block.offsets.len() implies !crate::key::bytes_before(
            (#[trigger] block.key_at(k)).key,
            (#[trigger] block.key_at(j)).key,
        ) by {
            bytes_are_ordered_lexicographically(stored_key(block, k), stored_key(block, j));
        }
    }
    block.lower_bound_splits(i, key);
    assert forall|j: int| 0 <= j < i implies lexicographic(#[trigger] stored_key(block, j), key) by {
        assert(crate::key::bytes_before(block.key_at(j).key, key));
        bytes_are_ordered_lexicographically(stored_key(block, j), key);
    }
    assert forall|j: int| i <= j < block.offsets@.len() implies !lexicographic(#[trigger] stored_key(block, j), key) by {
        assert(!crate::key::bytes_before(block.key_at(j).key, key));
        bytes_are_ordered_lexicographically(stored_key(block, j), key);
    }
}

/// Seeking in a block whose user keys are in order leads to the first entry whose user key is not
/// smaller than the sought one, or behind the last entry.
pub proof fn seek_shows_first_not_smaller(it: &mut BlockIterator, key: KeySlice<'_>)
    requires
        call_ensures(BlockIterator::seek_to_key, (it, key), ()),
        two_bytes(it.block().data@, 0) == 0,
        stored_in_order(it.block()),
    ensures
        shows(*final(it), old(it).block(), final(it).position().idx),
        first_not_smaller(old(it).block(), key@.key, final(it).position().idx),
{
    let block = it.block();
    let i = final(it).position().idx;
    lower_bound_is_first_not_smaller(block, key@.key, i);
    if i < block.offsets@.len() {
        ts_fits(block.data@, stored_key_end(block, i));
    }
    position_shows(*final(it), block, i);
}

/// An iterator that is made to seek does so.
pub proof fn created_iterator_shows_first_not_smaller(block: Arc<Block>, key: KeySlice<'_>, it: BlockIterator)
    requires
        call_ensures(BlockIterator::create_and_seek_to_key, (block, key), it),
        two_bytes(block.data@, 0) == 0,
        stored_in_order(*block),
    ensures
        shows(it, *block, it.position().idx),
        first_not_smaller(*block, key@.key, it.position().idx),
{
    let b = it.block();
    let i = it.position().idx;
    lower_bound_is_first_not_smaller(b, key@.key, i);
    if i < block.offsets@.len() {
        ts_fits(block.data@, stored_key_end(b, i));
    }
    position_shows(it, b, i);
}

/// In any block a seek leads to an entry whose user key is not smaller than the sought one while that of
/// the entry before it is, or to one of the ends.
pub proof fn seek_stops_between_neighbours(block: Arc<Block>, key: KeySlice<'_>, it: BlockIterator)
    requires
        call_ensures(BlockIterator::create_and_seek_to_key, (block, key), it),
        two_bytes(block.data@, 0) == 0,
    ensures
        ({
            let i = it.position().idx;
            &&& 0 <= i <= block.offsets@.len()
            &&& shows(it, *block, i)
            &&& i < block.offsets@.len() ==> !lexicographic(stored_key(*block, i), key@.key)
            &&& i > 0 ==> lexicographic(stored_key(*block, i - 1), key@.key)
        }),
{
    let b = it.block();
    let i = it.position().idx;
    keys_are_stored(b);
    if i < block.offsets@.len() {
        ts_fits(block.data@, stored_key_end(b, i));
        bytes_are_ordered_lexicographically(stored_key(b, i), key@.key);
        assert(block.key_at(i).key == stored_key(b, i));
    }
    if i > 0 {
        bytes_are_ordered_lexicographically(stored_key(b, i - 1), key@.key);
        assert(block.key_at(i - 1).key == stored_key(b, i - 1));
    }
    position_shows(it, b, i);
}

/// Any block whose bytes hold the entries that its offsets point at can be iterated on and sought in.
pub proof fn blocks_of_entries_are_accepted(block: Arc<Block>, key: KeySlice<'_>)
    requires
        holds_entry(block.data@, 0, 0),
        forall|i: int|
            0 <= i < block.offsets@.len() ==> holds_entry(
                block.data@,
                (#[trigger] block.offsets@[i]) as int,
                two_bytes(block.data@, 2),
            ),
    ensures
        call_requires(BlockIterator::create_and_seek_to_first, (block,)),
        call_requires(BlockIterator::create_and_seek_to_key, (block, key)),
{
    let data = block.data@;
    let none = Seq::<u8>::empty();
    assert(none.take(0) + data.subrange(4, 4 + two_bytes(data, 2)) =~= data.subrange(4, 4 + two_bytes(data, 2)));
    assert(block.header_fits());
    assert(block.first_key() == data.subrange(4, 4 + two_bytes(data, 2)));
    assert forall|i: int| 0 <= i < block.offsets.len() implies #[trigger] block.entry_fits(i) by {
        assert(holds_entry(data, block.offsets@[i] as int, two_bytes(data, 2)));
    }
    if block.offsets.len() > 0 {
        assert(block.entry_fits(0));
    }
}

/// A block without entries can be iterated on, whatever else it holds.
pub proof fn empty_blocks_are_accepted(block: Arc<Block>)
    requires
        block.offsets@.len() == 0,
    ensures
        call_requires(BlockIterator::create_and_seek_to_first, (block,)),
{
}

/// The key of an entry can be looked at always, and its value where that lies within the block.
pub proof fn shown_entries_can_be_looked_at(it: BlockIterator, block: Block, i: int)
    requires
        it.block() == block,
        it.position() == block.position_at(i),
        0 <= i,
        i < block.offsets@.len() ==> stored_key_end(block, i) + 10 + two_bytes(block.data@, stored_key_end(block, i) + 8)
            <= block.data@.len(),
    ensures
        call_requires(BlockIterator::key, (&it,)),
        call_requires(BlockIterator::is_valid, (&it,)),
        call_requires(BlockIterator::value, (&it,)),
{
}

/// An entry is decoded from its bytes: the length shared with the user key at the start of the block, the
/// length of the rest, the rest, eight bytes of timestamp, the length of the value, and the value. All
/// numbers have their low bytes first.
pub proof fn entries_are_decoded_from_their_bytes(block: Block, i: int)
    requires
        0 <= i < block.offsets@.len(),
        block.data@[0] == 0,
        block.data@[1] == 0,
    ensures
        ({
            let d = block.data@;
            let o = block.offsets@[i] as int;
            let first = d.subrange(4, 4 + d[2] + 256 * d[3]);
            let end = o + 4 + d[o + 2] + 256 * d[o + 3];
            let position = block.position_at(i);
            &&& position.idx == i
            &&& position.key.key == first.take(d[o] + 256 * d[o + 1]) + d.subrange(o + 4, end)
            &&& position.key.ts == d[end] + 256 * d[end + 1] + 65536 * d[end + 2] + 16777216 * d[end + 3] + 4294967296
                * d[end + 4] + 1099511627776 * d[end + 5] + 281474976710656 * d[end + 6] + 72057594037927936 * d[end + 7]
            &&& position.value_range.0 == end + 10
            &&& position.value_range.1 == end + 10 + d[end + 8] + 256 * d[end + 9]
        }),
{
    let d = block.data@;
    let none = Seq::<u8>::empty();
    assert(none.take(0) + d.subrange(4, 4 + d[2] + 256 * d[3]) =~= d.subrange(4, 4 + d[2] + 256 * d[3]));
    ts_fits(d, stored_key_end(block, i));
}

/// An iterator that was just made can be moved in every way, where the bytes hold the entries.
pub proof fn created_iterators_can_be_moved(block: Arc<Block>, it: &mut BlockIterator, key: KeySlice<'_>)
    requires
        call_ensures(BlockIterator::create_and_seek_to_first, (block,), *it),
        holds_entry(block.data@, 0, 0),
        forall|i: int|
            0 <= i < block.offsets@.len() ==> holds_entry(
                block.data@,
                (#[trigger] block.offsets@[i]) as int,
                two_bytes(block.data@, 2),
            ),
    ensures
        call_requires(BlockIterator::next, (it,)),
        call_requires(BlockIterator::seek_to_first, (it,)),
        call_requires(BlockIterator::seek_to_key, (it, key)),
{
    let b = it.block();
    entries_fit(b);
}

proof fn entries_fit(block: Block)
    requires
        holds_entry(block.data@, 0, 0),
        forall|i: int|
            0 <= i < block.offsets@.len() ==> holds_entry(
                block.data@,
                (#[trigger] block.offsets@[i]) as int,
                two_bytes(block.data@, 2),
            ),
    ensures
        block.header_fits(),
        block.all_entries_fit(),
        forall|i: int| 0 <= i < block.offsets.len() ==> #[trigger] block.entry_fits(i),
{
    let data = block.data@;
    let none = Seq::<u8>::empty();
    assert(none.take(0) + data.subrange(4, 4 + two_bytes(data, 2)) =~= stored_first_key(block));
    assert(block.first_key() == stored_first_key(block));
    assert forall|i: int| 0 <= i < block.offsets.len() implies #[trigger] block.entry_fits(i) by {
        assert(holds_entry(data, block.offsets@[i] as int, two_bytes(data, 2)));
    }
}

/// An iterator that has moved on can be moved again, short of the largest index.
pub proof fn moved_iterators_can_be_moved(it: &mut BlockIterator, again: &mut BlockIterator, key: KeySlice<'_>)
    requires
        call_ensures(BlockIterator::next, (it,), ()),
        *again == *final(it),
        0 <= it.position().idx,
        it.position().idx + 1 < usize::MAX,
        holds_entry(it.block().data@, 0, 0),
        forall|i: int|
            0 <= i < it.block().offsets@.len() ==> holds_entry(
                it.block().data@,
                (#[trigger] it.block().offsets@[i]) as int,
                two_bytes(it.block().data@, 2),
            ),
    ensures
        call_requires(BlockIterator::next, (again,)),
        call_requires(BlockIterator::seek_to_first, (again,)),
        call_requires(BlockIterator::seek_to_key, (again, key)),
{
    let b = it.block();
    entries_fit(b);
    let i = it.position().idx + 2;
    if i < b.offsets.len() {
        assert(b.entry_fits(i));
    }
}

} // verus!
