use std::sync::Arc;

use mini_lsm::block::iterator::BlockIterator;
use mini_lsm::block::Block;
use mini_lsm::key::KeySlice;

/// Lays entries out in a block; the first argument is the first user key.
fn block(first_key: &[u8], entries: &[(&[u8], u64, &[u8])]) -> Arc<Block> {
    let mut data: Vec<u8> = Vec::new();
    let mut offsets: Vec<u16> = Vec::new();
    for (n, (key, ts, value)) in entries.iter().enumerate() {
        offsets.push(data.len() as u16);
        let mut shared = 0;
        if n > 0 {
            while shared < key.len() && shared < first_key.len() && key[shared] == first_key[shared] {
                shared += 1;
            }
        }
        data.extend_from_slice(&(shared as u16).to_le_bytes());
        data.extend_from_slice(&((key.len() - shared) as u16).to_le_bytes());
        data.extend_from_slice(&key[shared..]);
        data.extend_from_slice(&ts.to_le_bytes());
        data.extend_from_slice(&(value.len() as u16).to_le_bytes());
        data.extend_from_slice(value);
    }
    Arc::new(Block { data, offsets })
}

fn fruit() -> Arc<Block> {
    block(
        b"apple",
        &[
            (b"apple", 9, b"red"),
            (b"apple", 4, b"green"),
            (b"apricot", 7, b""),
            (b"banana", 0x0102030405060708, b"yellow"),
        ],
    )
}

fn stands_at(it: &BlockIterator, key: &[u8], ts: u64, value: &[u8]) {
    assert!(it.is_valid());
    assert_eq!(it.key().key_ref(), key);
    assert_eq!(it.key().ts(), ts);
    assert_eq!(it.value(), value);
}

#[test]
fn walks_over_all_entries() {
    let mut it = BlockIterator::create_and_seek_to_first(fruit());
    stands_at(&it, b"apple", 9, b"red");
    it.next();
    stands_at(&it, b"apple", 4, b"green");
    it.next();
    stands_at(&it, b"apricot", 7, b"");
    it.next();
    stands_at(&it, b"banana", 0x0102030405060708, b"yellow");
    it.next();
    assert!(!it.is_valid());
    assert!(it.key().is_empty());
    assert_eq!(it.value(), b"");
    it.next();
    assert!(!it.is_valid());
    it.seek_to_first();
    stands_at(&it, b"apple", 9, b"red");
}

#[test]
fn decodes_bytes_as_laid_out() {
    let data: Vec<u8> = vec![
        0, 0, 3, 0, b'k', b'e', b'y', 5, 0, 0, 0, 0, 0, 0, 1, 2, 0, b'v', b'w', // first
        2, 0, 1, 0, b'g', 6, 1, 0, 0, 0, 0, 0, 0, 0, 0, // second: shares "ke"
    ];
    let block = Arc::new(Block { data, offsets: vec![0, 19] });
    let mut it = BlockIterator::create_and_seek_to_first(block);
    stands_at(&it, b"key", 0x0100000000000005, b"vw");
    it.next();
    stands_at(&it, b"keg", 262, b"");
}

#[test]
fn lengths_use_both_bytes() {
    let long = vec![b'x'; 300];
    let value = vec![7u8; 515];
    let mut it = BlockIterator::create_and_seek_to_first(block(&long, &[(&long, 1, &value), (&long, 0, b"old")]));
    stands_at(&it, &long, 1, &value);
    it.next();
    stands_at(&it, &long, 0, b"old");
}

#[test]
fn seeks_to_first_key_not_smaller() {
    let it = BlockIterator::create_and_seek_to_key(fruit(), KeySlice::from_slice(b"apricot", 0));
    stands_at(&it, b"apricot", 7, b"");
    let it = BlockIterator::create_and_seek_to_key(fruit(), KeySlice::from_slice(b"aq", 0));
    stands_at(&it, b"banana", 0x0102030405060708, b"yellow");
    let it = BlockIterator::create_and_seek_to_key(fruit(), KeySlice::from_slice(b"", 0));
    stands_at(&it, b"apple", 9, b"red");
    let it = BlockIterator::create_and_seek_to_key(fruit(), KeySlice::from_slice(b"bananas", 0));
    assert!(!it.is_valid());
    assert_eq!(it.value(), b"");
}

#[test]
fn seek_ignores_the_timestamp() {
    for ts in [0u64, 4, 5, 9, u64::MAX] {
        let it = BlockIterator::create_and_seek_to_key(fruit(), KeySlice::from_slice(b"apple", ts));
        stands_at(&it, b"apple", 9, b"red");
    }
}

#[test]
fn seek_finds_every_key_of_a_large_block() {
    let keys: Vec<Vec<u8>> = (0..50u8).map(|i| vec![b'k', 2 * i]).collect();
    let entries: Vec<(&[u8], u64, &[u8])> = keys.iter().map(|k| (k.as_slice(), 1u64, k.as_slice())).collect();
    let block = block(&keys[0], &entries);
    for i in 0..50u8 {
        let it = BlockIterator::create_and_seek_to_key(block.clone(), KeySlice::from_slice(&[b'k', 2 * i], 0));
        stands_at(&it, &[b'k', 2 * i], 1, &[b'k', 2 * i]);
        let it = BlockIterator::create_and_seek_to_key(block.clone(), KeySlice::from_slice(&[b'k', 2 * i + 1], 0));
        if i < 49 {
            stands_at(&it, &[b'k', 2 * i + 2], 1, &[b'k', 2 * i + 2]);
        } else {
            assert!(!it.is_valid());
        }
    }
}

#[test]
fn goes_on_from_where_it_sought() {
    let mut it = BlockIterator::create_and_seek_to_key(fruit(), KeySlice::from_slice(b"apricot", 0));
    it.next();
    stands_at(&it, b"banana", 0x0102030405060708, b"yellow");
    it.seek_to_key(KeySlice::from_slice(b"apple", 0));
    it.next();
    stands_at(&it, b"apple", 4, b"green");
}

#[test]
fn empty_block_has_no_entry() {
    let mut it = BlockIterator::create_and_seek_to_first(Arc::new(Block { data: vec![], offsets: vec![] }));
    assert!(!it.is_valid());
    it.next();
    assert!(!it.is_valid());
    it.seek_to_first();
    assert!(!it.is_valid());
}

#[test]
fn empty_user_key_counts_as_invalid() {
    let mut it = BlockIterator::create_and_seek_to_first(block(b"", &[(b"", 3, b"v"), (b"a", 2, b"w")]));
    assert!(!it.is_valid());
    it.next();
    stands_at(&it, b"a", 2, b"w");
}

#[test]
fn seek_counts_timestamps_where_no_version_is_newer() {
    let block = block(b"a", &[(b"a", 9, b"1"), (b"b", 4, b"2"), (b"b", 3, b"3"), (b"c", 1, b"4")]);
    let it = BlockIterator::create_and_seek_to_key(block.clone(), KeySlice::from_slice(b"b", 4));
    stands_at(&it, b"b", 4, b"2");
    let it = BlockIterator::create_and_seek_to_key(block.clone(), KeySlice::from_slice(b"b", u64::MAX));
    stands_at(&it, b"b", 4, b"2");
    // A newer version of the user key is found first.
    let it = BlockIterator::create_and_seek_to_key(block, KeySlice::from_slice(b"b", 3));
    stands_at(&it, b"b", 4, b"2");
}
