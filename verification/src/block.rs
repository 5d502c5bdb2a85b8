//! Blocks: the unit in which entries are stored.
//!
//! A block holds its entries one after another in `data`, and in `offsets` where each of them
//! starts. An entry is laid out as follows, with numbers in little-endian order:
//!
//! | bytes | what |
//! |---|---|
//! | 2 | how many bytes the user key shares with the front of the block's first user key |
//! | 2 | length of the rest of the user key |
//! | .. | the rest of the user key |
//! | 8 | timestamp |
//! | 2 | length of the value |
//! | .. | the value |

pub mod iterator;

use vstd::prelude::*;

use crate::key::bytes_before;
use crate::key::bytes_before_is_asymmetric;
use crate::key::bytes_before_is_total;
use crate::key::bytes_before_is_transitive;
use crate::key::empty_key;
use crate::key::KeyModel;
use crate::key::KeyView;

verus! {

/// A block of entries.
#[derive(Debug)]
pub struct Block {
    /// The entries, one after another.
    pub data: Vec<u8>,
    /// Where in `data` each entry starts.
    pub offsets: Vec<u16>,
}

/// The two-byte number at `at`.
pub open spec fn le_u16(data: Seq<u8>, at: int) -> int {
    data[at] + 0x100 * data[at + 1]
}

/// The eight-byte number at `at`.
pub open spec fn le_u64(data: Seq<u8>, at: int) -> int {
    data[at] + 0x100 * data[at + 1] + 0x1_0000 * data[at + 2] + 0x100_0000 * data[at + 3] + 0x1_0000_0000 * data[at + 4]
        + 0x100_0000_0000 * data[at + 5] + 0x1_0000_0000_0000 * data[at + 6] + 0x100_0000_0000_0000 * data[at + 7]
}

/// Where the user key of the entry at `offset` ends.
pub open spec fn entry_key_end(data: Seq<u8>, offset: int) -> int {
    offset + 4 + le_u16(data, offset + 2)
}

/// Where in `data` the value of the entry at `offset` lies: its start and its end.
pub open spec fn entry_value_range(data: Seq<u8>, offset: int) -> (int, int) {
    let end = entry_key_end(data, offset);
    (end + 10, end + 10 + le_u16(data, end + 8))
}

/// The key of the entry at `offset`, in a block whose first user key is `first_key`.
pub open spec fn entry_key(data: Seq<u8>, offset: int, first_key: Seq<u8>) -> KeyView {
    let end = entry_key_end(data, offset);
    KeyView {
        key: first_key.take(le_u16(data, offset)) + data.subrange(offset + 4, end),
        ts: le_u64(data, end) as u64,
    }
}

/// The entry at `offset` can be decoded: all of it up to the value lies within `data`, and it shares
/// no more bytes with the block's first user key than that has.
pub open spec fn entry_fits(data: Seq<u8>, offset: int, first_key_len: nat) -> bool {
    &&& 0 <= offset
    &&& offset + 4 <= data.len()
    &&& le_u16(data, offset) <= first_key_len
    &&& entry_key_end(data, offset) + 10 <= data.len()
    &&& entry_value_range(data, offset).1 <= usize::MAX
}

/// Where an iterator over a block stands: the index of the entry, its key, and where its value lies.
pub struct BlockPosition {
    pub idx: int,
    pub key: KeyView,
    pub value_range: (int, int),
}

impl Block {
    /// The entry at the very start of the block can be decoded. It shares no bytes with itself.
    pub open spec fn header_fits(&self) -> bool {
        entry_fits(self.data@, 0, 0)
    }

    /// The first user key, on which the others build.
    pub open spec fn first_key(&self) -> Seq<u8> {
        entry_key(self.data@, 0, Seq::empty()).key
    }

    /// Entry number `i` can be decoded.
    pub open spec fn entry_fits(&self, i: int) -> bool {
        entry_fits(self.data@, self.offsets[i] as int, self.first_key().len())
    }

    /// Every entry can be decoded.
    pub open spec fn all_entries_fit(&self) -> bool {
        forall|i: int| 0 <= i < self.offsets.len() ==> #[trigger] self.entry_fits(i)
    }

    /// The key of entry number `i`.
    pub open spec fn key_at(&self, i: int) -> KeyView {
        entry_key(self.data@, self.offsets[i] as int, self.first_key())
    }

    /// Where the value of entry number `i` lies.
    pub open spec fn value_range_at(&self, i: int) -> (int, int) {
        entry_value_range(self.data@, self.offsets[i] as int)
    }

    /// The position at entry number `i`; behind the last entry the key is empty.
    pub open spec fn position_at(&self, i: int) -> BlockPosition {
        if 0 <= i < self.offsets.len() {
            BlockPosition { idx: i, key: self.key_at(i), value_range: self.value_range_at(i) }
        } else {
            BlockPosition { idx: i, key: empty_key(), value_range: (0, 0) }
        }
    }

    /// The user keys come in order; several versions of one user key may follow each other.
    pub open spec fn sorted(&self) -> bool {
        forall|i: int, j: int|
            0 <= i < j < self.offsets.len() ==> !bytes_before(
                (#[trigger] self.key_at(j)).key,
                (#[trigger] self.key_at(i)).key,
            )
    }

    /// Entry number `i` has no user key smaller than `key`, and the entry before it has.
    pub open spec fn lower_bound(&self, i: int, key: Seq<u8>) -> bool {
        &&& 0 <= i <= self.offsets.len()
        &&& i < self.offsets.len() ==> !bytes_before(self.key_at(i).key, key)
        &&& i > 0 ==> bytes_before(self.key_at(i - 1).key, key)
    }

    /// The entries before `i` are those with a user key smaller than `key`.
    pub open spec fn splits_at(&self, i: int, key: Seq<u8>) -> bool {
        &&& 0 <= i <= self.offsets.len()
        &&& forall|j: int|
            0 <= j < self.offsets.len() ==> (j < i <==> bytes_before((#[trigger] self.key_at(j)).key, key))
    }

    /// Where the user keys come in order, the neighbours of `i` speak for all entries.
    pub proof fn lower_bound_splits(&self, i: int, key: Seq<u8>)
        requires
            self.sorted(),
            self.lower_bound(i, key),
        ensures
            self.splits_at(i, key),
    {
        assert forall|j: int| 0 <= j < self.offsets.len() implies (j < i <==> bytes_before(
            (#[trigger] self.key_at(j)).key,
            key,
        )) by {
            let k = self.key_at(j).key;
            if j < i - 1 {
                let p = self.key_at(i - 1).key;
                bytes_before_is_total(k, p);
                if k != p {
                    bytes_before_is_transitive(k, p, key);
                }
            }
            if j > i && bytes_before(k, key) {
                let p = self.key_at(i).key;
                bytes_before_is_total(p, k);
                if p != k {
                    bytes_before_is_transitive(p, k, key);
                }
            }
        }
    }
}

/// The number `n` in `count` bytes.
pub open spec fn le_bytes(n: nat, count: nat) -> Seq<u8>
    decreases count,
{
    if count == 0 {
        Seq::empty()
    } else {
        seq![(n % 0x100) as u8] + le_bytes(n / 0x100, (count - 1) as nat)
    }
}

/// An entry as it is laid out in a block. Its user key shares `shared` bytes with the front of the
/// block's first user key.
pub open spec fn laid_out(shared: nat, key_rest: Seq<u8>, ts: u64, value: Seq<u8>) -> Seq<u8> {
    le_bytes(shared, 2) + le_bytes(key_rest.len(), 2) + key_rest + le_bytes(ts as nat, 8) + le_bytes(value.len(), 2)
        + value
}

proof fn two_bytes_read_back(n: nat)
    requires
        n < 0x1_0000,
    ensures
        le_bytes(n, 2).len() == 2,
        le_u16(le_bytes(n, 2), 0) == n,
{
    reveal_with_fuel(le_bytes, 3);
}

proof fn eight_bytes_read_back(n: nat)
    requires
        n <= u64::MAX,
    ensures
        le_bytes(n, 8).len() == 8,
        le_u64(le_bytes(n, 8), 0) == n,
{
    reveal_with_fuel(le_bytes, 9);
    let n1 = n / 0x100;
    let n2 = n1 / 0x100;
    let n3 = n2 / 0x100;
    let n4 = n3 / 0x100;
    let n5 = n4 / 0x100;
    let n6 = n5 / 0x100;
    let n7 = n6 / 0x100;
    let b = le_bytes(n, 8);
    assert(b[0] == n % 0x100 && b[1] == n1 % 0x100 && b[2] == n2 % 0x100 && b[3] == n3 % 0x100);
    assert(b[4] == n4 % 0x100 && b[5] == n5 % 0x100 && b[6] == n6 % 0x100 && b[7] == n7 % 0x100);
    assert(n7 < 0x100);
}

/// An entry that lies in a block as it is laid out can be decoded, and reads back as the key, the
/// timestamp and the value that went in.
pub proof fn laid_out_entry_reads_back(
    data: Seq<u8>,
    offset: int,
    first_key: Seq<u8>,
    shared: nat,
    key_rest: Seq<u8>,
    ts: u64,
    value: Seq<u8>,
)
    requires
        shared <= first_key.len(),
        shared < 0x1_0000,
        key_rest.len() < 0x1_0000,
        value.len() < 0x1_0000,
        data.len() <= usize::MAX,
        0 <= offset,
        offset + laid_out(shared, key_rest, ts, value).len() <= data.len(),
        data.subrange(offset, offset + laid_out(shared, key_rest, ts, value).len()) == laid_out(
            shared,
            key_rest,
            ts,
            value,
        ),
    ensures
        entry_fits(data, offset, first_key.len()),
        entry_key(data, offset, first_key) == (KeyView { key: first_key.take(shared as int) + key_rest, ts }),
        data.subrange(entry_value_range(data, offset).0, entry_value_range(data, offset).1) == value,
{
    let entry = laid_out(shared, key_rest, ts, value);
    let r = key_rest.len() as int;
    let v = value.len() as int;
    two_bytes_read_back(shared);
    two_bytes_read_back(key_rest.len());
    eight_bytes_read_back(ts as nat);
    two_bytes_read_back(value.len());
    assert(entry.len() == 14 + r + v);
    assert forall|i: int| 0 <= i < entry.len() implies data[offset + i] == #[trigger] entry[i] by {
        assert(data.subrange(offset, offset + entry.len())[i] == data[offset + i]);
    }
    let a = le_bytes(shared, 2);
    let b = le_bytes(key_rest.len(), 2);
    let c = le_bytes(ts as nat, 8);
    let d = le_bytes(value.len(), 2);
    assert(entry[0] == a[0] && entry[1] == a[1]);
    assert(entry[2] == b[0] && entry[3] == b[1]);
    assert(le_u16(data, offset) == shared);
    assert(le_u16(data, offset + 2) == r);
    let e = 4 + r;
    assert(entry[e] == c[0] && entry[e + 1] == c[1] && entry[e + 2] == c[2] && entry[e + 3] == c[3]);
    assert(entry[e + 4] == c[4] && entry[e + 5] == c[5] && entry[e + 6] == c[6] && entry[e + 7] == c[7]);
    assert(entry[e + 8] == d[0] && entry[e + 9] == d[1]);
    assert(le_u64(data, offset + e) == ts);
    assert(le_u16(data, offset + e + 8) == v);
    assert(data.subrange(offset + 4, offset + e) =~= key_rest) by {
        assert forall|i: int| 0 <= i < r implies data[offset + 4 + i] == #[trigger] key_rest[i] by {
            assert(entry[4 + i] == key_rest[i]);
        }
    }
    assert(data.subrange(offset + e + 10, offset + e + 10 + v) =~= value) by {
        assert forall|i: int| 0 <= i < v implies data[offset + e + 10 + i] == #[trigger] value[i] by {
            assert(entry[e + 10 + i] == value[i]);
        }
    }
}

/// Where an iterator stands that was put at the first entry and then moved on `n` times.
pub open spec fn walk(block: Block, n: nat) -> BlockPosition
    decreases n,
{
    if n == 0 {
        block.position_at(0)
    } else {
        block.position_at(walk(block, (n - 1) as nat).idx + 1)
    }
}

/// Moving on from the first entry visits the entries in turn, each once, and ends behind the last.
pub proof fn walk_visits_entries_in_turn(block: Block, n: nat)
    ensures
        walk(block, n) == block.position_at(n as int),
        n < block.offsets.len() ==> walk(block, n).key == block.key_at(n as int),
        n >= block.offsets.len() ==> walk(block, n).key == empty_key(),
    decreases n,
{
    if n > 0 {
        walk_visits_entries_in_turn(block, (n - 1) as nat);
    }
}

/// Where no user key is empty, an iterator has a key exactly while it stands at an entry.
pub proof fn position_is_valid_at_entries(block: Block, i: int)
    requires
        0 <= i,
        forall|j: int| 0 <= j < block.offsets.len() ==> (#[trigger] block.key_at(j)).key.len() > 0,
    ensures
        block.position_at(i).key.key.len() > 0 <==> i < block.offsets.len(),
{
    if i < block.offsets.len() {
        assert(block.key_at(i).key.len() > 0);
    }
}

/// There is one place only at which a key splits a block.
pub proof fn split_is_unique(block: Block, key: Seq<u8>, i: int, j: int)
    requires
        block.splits_at(i, key),
        block.splits_at(j, key),
    ensures
        i == j,
{
    if i < j {
        assert(bytes_before(block.key_at(i).key, key));
    }
    if j < i {
        assert(bytes_before(block.key_at(j).key, key));
    }
}

/// Seeking a user key that a sorted block holds leads to the first entry that has it.
pub proof fn seek_finds_first_version(block: Block, key: Seq<u8>, i: int, j: int)
    requires
        block.sorted(),
        block.splits_at(i, key),
        0 <= j < block.offsets.len(),
        block.key_at(j).key == key,
    ensures
        i <= j,
        block.key_at(i).key == key,
        forall|m: int| 0 <= m < i ==> (#[trigger] block.key_at(m)).key != key,
{
    assert forall|m: int| 0 <= m < block.offsets.len() && (#[trigger] block.key_at(m)).key == key implies i <= m by {
        if bytes_before(key, key) {
            bytes_before_is_asymmetric(key, key);
        }
    }
    assert(block.key_at(j).key == key);
    let k = block.key_at(i).key;
    bytes_before_is_total(k, key);
}

/// Where the block holds no version of the sought user key that is newer than the sought one, seeking
/// leads to the first entry whose key, with its timestamp, is not before the sought one.
pub proof fn seek_finds_first_key(block: Block, key: KeyView, i: int)
    requires
        block.splits_at(i, key.key),
        forall|j: int|
            0 <= j < block.offsets.len() && (#[trigger] block.key_at(j)).key == key.key ==> block.key_at(j).ts <= key.ts,
    ensures
        forall|j: int| 0 <= j < block.offsets.len() ==> (j < i <==> (#[trigger] block.key_at(j)).before(key)),
{
}

} // verus!
