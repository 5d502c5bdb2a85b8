use std::sync::Arc;

use mini_lsm::iterators::concat_iterator::SstConcatIterator;
use mini_lsm::iterators::merge_iterator::MergeIterator;
use mini_lsm::iterators::two_merge_iterator::TwoMergeIterator;
use mini_lsm::iterators::StorageIterator;
use mini_lsm::key::compare_bytes;
use mini_lsm::key::KeyOrder;
use mini_lsm::key::KeySlice;
use mini_lsm::key::KeyVec;
use mini_lsm::key::StorageKey;
use mini_lsm::memory::Damage;
use mini_lsm::memory::InMemoryTable;
use mini_lsm::memory::InMemoryTableBuilder;
use mini_lsm::memory::InMemoryTableIterator;
use mini_lsm::table::Table;
use mini_lsm::table::TableBuilder;

type Row<'a> = (&'a str, u64, &'a str);

fn table(id: usize, rows: &[Row]) -> Arc<InMemoryTable> {
    let mut builder = InMemoryTableBuilder::new(4096);
    for (key, ts, value) in rows {
        builder.add(KeySlice::from_slice(key.as_bytes(), *ts), value.as_bytes());
    }
    Arc::new(builder.build(id, &None).unwrap())
}

fn iter(rows: &[Row]) -> InMemoryTableIterator {
    InMemoryTable::create_and_seek_to_first(table(0, rows)).unwrap()
}

fn drain<I: for<'a> StorageIterator<KeyType<'a> = KeySlice<'a>>>(mut it: I) -> Vec<(String, u64, String)> {
    let mut rows = Vec::new();
    while it.is_valid() {
        rows.push((
            String::from_utf8(it.key().key_ref().to_vec()).unwrap(),
            it.key().ts(),
            String::from_utf8(it.value().to_vec()).unwrap(),
        ));
        it.next().unwrap();
    }
    it.next().unwrap();
    assert!(!it.is_valid());
    rows
}

fn damage(idx: usize, message: &str) -> Damage {
    Damage { idx, message: message.to_string() }
}

fn owned(rows: &[Row]) -> Vec<(String, u64, String)> {
    rows.iter().map(|(k, t, v)| (k.to_string(), *t, v.to_string())).collect()
}

#[test]
fn bytes_compare_lexicographically() {
    assert_eq!(compare_bytes(b"a", b"b"), KeyOrder::Less);
    assert_eq!(compare_bytes(b"a", b"ab"), KeyOrder::Less);
    assert_eq!(compare_bytes(b"", b""), KeyOrder::Equal);
    assert_eq!(compare_bytes(b"b", b"ab"), KeyOrder::Greater);
    assert_eq!(compare_bytes(&[255], &[0, 1]), KeyOrder::Greater);
}

#[test]
fn newer_versions_sort_first() {
    let key = |ts| KeySlice::from_slice(b"k", ts);
    assert_eq!(key(3).compare(&key(2)), KeyOrder::Less);
    assert_eq!(key(2).compare(&key(2)), KeyOrder::Equal);
    assert_eq!(key(1).compare(&key(2)), KeyOrder::Greater);
    assert_eq!(KeySlice::from_slice(b"j", 0).compare(&key(9)), KeyOrder::Less);
}

#[test]
fn owned_keys_lend_themselves() {
    let key = KeyVec::from_vec_with_ts(b"abc".to_vec(), 12);
    assert_eq!(key.key_ref(), b"abc");
    assert_eq!(key.ts(), 12);
    assert!(!key.is_empty());
    assert_eq!(key.as_key_slice().into_inner(), b"abc");
    assert_eq!(key.as_key_slice().ts(), 12);
    assert!(KeyVec::new().is_empty());
    assert_eq!(KeyVec::new().ts(), 0);
}

#[test]
fn two_merge_interleaves() {
    let merged = TwoMergeIterator::create(
        iter(&[("a", 1, "1"), ("c", 1, "3")]),
        iter(&[("b", 1, "2"), ("d", 1, "4"), ("e", 1, "5")]),
    )
    .unwrap();
    assert_eq!(drain(merged), owned(&[("a", 1, "1"), ("b", 1, "2"), ("c", 1, "3"), ("d", 1, "4"), ("e", 1, "5")]));
}

#[test]
fn two_merge_prefers_a() {
    let merged = TwoMergeIterator::create(
        iter(&[("a", 1, "from a"), ("b", 2, "from a")]),
        iter(&[("a", 1, "from b"), ("b", 3, "newer in b"), ("b", 2, "from b"), ("c", 1, "from b")]),
    )
    .unwrap();
    assert_eq!(
        drain(merged),
        owned(&[("a", 1, "from a"), ("b", 3, "newer in b"), ("b", 2, "from a"), ("c", 1, "from b")])
    );
}

#[test]
fn two_merge_with_an_empty_side() {
    let rows = [("a", 1, "1"), ("b", 1, "2")];
    assert_eq!(drain(TwoMergeIterator::create(iter(&rows), iter(&[])).unwrap()), owned(&rows));
    assert_eq!(drain(TwoMergeIterator::create(iter(&[]), iter(&rows)).unwrap()), owned(&rows));
    assert_eq!(drain(TwoMergeIterator::create(iter(&[]), iter(&[])).unwrap()), owned(&[]));
}

#[test]
fn merge_prefers_earlier_iterators() {
    let merged = MergeIterator::create(vec![
        Box::new(iter(&[("b", 1, "first"), ("d", 1, "first")])),
        Box::new(iter(&[("a", 1, "second"), ("b", 1, "second"), ("c", 1, "second")])),
        Box::new(iter(&[])),
        Box::new(iter(&[("a", 1, "fourth"), ("c", 2, "fourth"), ("d", 1, "fourth"), ("e", 1, "fourth")])),
    ]);
    assert_eq!(
        drain(merged),
        owned(&[
            ("a", 1, "second"),
            ("b", 1, "first"),
            ("c", 2, "fourth"),
            ("c", 1, "second"),
            ("d", 1, "first"),
            ("e", 1, "fourth"),
        ])
    );
}

#[test]
fn merge_of_nothing_is_empty() {
    let merged: MergeIterator<InMemoryTableIterator> = MergeIterator::create(vec![]);
    assert_eq!(drain(merged), owned(&[]));
}

#[test]
fn concat_reads_tables_in_turn() {
    let tables = vec![
        table(1, &[]),
        table(2, &[("a", 1, "1"), ("b", 1, "2")]),
        table(3, &[]),
        table(4, &[]),
        table(5, &[("c", 1, "3")]),
        table(6, &[]),
    ];
    let all = SstConcatIterator::create_and_seek_to_first(tables).unwrap();
    assert_eq!(drain(all), owned(&[("a", 1, "1"), ("b", 1, "2"), ("c", 1, "3")]));
    let none: SstConcatIterator<InMemoryTable> = SstConcatIterator::create_and_seek_to_first(vec![]).unwrap();
    assert_eq!(drain(none), owned(&[]));
}

#[test]
fn in_memory_tables_estimate_their_size() {
    let mut builder = InMemoryTableBuilder::new(16);
    assert_eq!(builder.estimated_size(), 0);
    builder.add(KeySlice::from_slice(b"abc", 1), b"value");
    assert_eq!(builder.estimated_size(), 22);
    builder.add(KeySlice::from_slice(b"abd", 1), b"");
    assert_eq!(builder.estimated_size(), 39);
    let table = builder.build(7, &None).unwrap();
    assert_eq!(table.sst_id(), 7);
    assert_eq!(table.len(), 2);
}

fn damaged(rows: &[Row], idx: usize) -> InMemoryTableIterator {
    let table = Arc::try_unwrap(table(0, rows)).ok().unwrap().with_damage(damage(idx, "damaged entry"));
    InMemoryTable::create_and_seek_to_first(Arc::new(table)).unwrap()
}

#[test]
fn two_merge_hands_errors_of_a_on() {
    let a = damaged(&[("a", 1, "1"), ("c", 1, "3"), ("e", 1, "5")], 2);
    let mut merged = TwoMergeIterator::create(a, iter(&[("b", 1, "2"), ("d", 1, "4")])).unwrap();
    assert!(merged.next().is_ok());
    assert!(merged.next().is_ok());
    assert_eq!(merged.key().key_ref(), b"c");
    assert_eq!(merged.next().unwrap_err().message, "damaged entry");
}

#[test]
fn two_merge_hands_errors_of_b_on() {
    let b = damaged(&[("b", 1, "2"), ("d", 1, "4")], 1);
    let mut merged = TwoMergeIterator::create(iter(&[("a", 1, "1"), ("b", 1, "over")]), b).unwrap();
    assert!(merged.next().is_ok());
    assert_eq!(merged.value(), b"over");
    assert_eq!(merged.next().unwrap_err().message, "damaged entry");
}

#[test]
fn merge_hands_errors_on() {
    let mut merged = MergeIterator::create(vec![
        Box::new(iter(&[("a", 1, "1"), ("b", 1, "2")])),
        Box::new(damaged(&[("b", 1, "other"), ("c", 1, "3")], 1)),
    ]);
    assert!(merged.next().is_ok());
    assert_eq!(merged.next().unwrap_err().message, "damaged entry");
}

#[test]
fn concat_hands_errors_on() {
    let broken = Arc::try_unwrap(table(2, &[("b", 1, "2")])).ok().unwrap().with_damage(damage(0, "damaged entry"));
    let mut all = SstConcatIterator::create_and_seek_to_first(vec![table(1, &[("a", 1, "1")]), Arc::new(broken)]).unwrap();
    assert_eq!(all.value(), b"1");
    assert_eq!(all.next().unwrap_err().message, "damaged entry");
}

#[test]
fn in_memory_tables_respect_the_limit_of_the_store() {
    let mut builder = InMemoryTableBuilder::new(16);
    builder.add(KeySlice::from_slice(b"abc", 1), b"value");
    assert!(builder.build(7, &Some(22)).is_ok());
    let mut builder = InMemoryTableBuilder::new(16);
    builder.add(KeySlice::from_slice(b"abc", 1), b"value");
    assert_eq!(builder.build(7, &Some(21)).err().unwrap().message, "table too large");
}

fn failing(rows: &[Row], idx: usize, message: &str) -> InMemoryTableIterator {
    let table = Arc::try_unwrap(table(0, rows)).ok().unwrap().with_damage(damage(idx, message));
    InMemoryTable::create_and_seek_to_first(Arc::new(table)).unwrap()
}

#[test]
fn two_merge_moves_a_before_b() {
    let a = failing(&[("a", 1, "1"), ("b", 1, "2")], 1, "a is damaged");
    let b = failing(&[("a", 1, "other"), ("c", 1, "3")], 1, "b is damaged");
    let mut merged = TwoMergeIterator::create(a, b).unwrap();
    assert_eq!(merged.next().unwrap_err().message, "a is damaged");
    let b = failing(&[("a", 1, "other"), ("c", 1, "3")], 1, "b is damaged");
    let mut merged = TwoMergeIterator::create(iter(&[("a", 1, "1"), ("b", 1, "2")]), b).unwrap();
    assert_eq!(merged.next().unwrap_err().message, "b is damaged");
}

#[test]
fn merge_moves_earlier_iterators_first() {
    let merged = |messages: [&str; 3]| {
        let rows = [("a", 1, "1"), ("b", 1, "2")];
        let part = |message: &str| {
            Box::new(if message.is_empty() { iter(&rows) } else { failing(&rows, 1, message) })
        };
        MergeIterator::create(messages.iter().map(|message| part(message)).collect())
    };
    assert_eq!(merged(["first", "second", "third"]).next().unwrap_err().message, "first");
    assert_eq!(merged(["", "second", "third"]).next().unwrap_err().message, "second");
    assert_eq!(merged(["", "", "third"]).next().unwrap_err().message, "third");
    assert!(merged(["", "", ""]).next().is_ok());
}

#[test]
fn a_side_that_stays_does_not_fail() {
    let b = damaged(&[("c", 1, "3"), ("d", 1, "4")], 1);
    let mut merged = TwoMergeIterator::create(iter(&[("a", 1, "1"), ("b", 1, "2")]), b).unwrap();
    assert!(merged.next().is_ok());
    assert!(merged.next().is_ok());
    assert_eq!(merged.key().key_ref(), b"c");
    assert_eq!(merged.next().unwrap_err().message, "damaged entry");
}

#[test]
fn two_merge_takes_a_step_for_every_key() {
    let mut merged = TwoMergeIterator::create(
        iter(&[("a", 1, "1"), ("b", 1, "2"), ("d", 1, "4")]),
        iter(&[("b", 1, "x"), ("c", 1, "3"), ("d", 1, "y")]),
    )
    .unwrap();
    for _ in 0..4 {
        assert!(merged.is_valid());
        merged.next().unwrap();
    }
    assert!(!merged.is_valid());
}

#[test]
fn concat_skips_empty_tables_that_cannot_be_read() {
    // There is no entry to be damaged in an empty table.
    let empty = Arc::try_unwrap(table(1, &[])).ok().unwrap().with_damage(damage(0, "damaged entry"));
    let all = SstConcatIterator::create_and_seek_to_first(vec![Arc::new(empty), table(2, &[("a", 1, "1")])]).unwrap();
    assert_eq!(drain(all), owned(&[("a", 1, "1")]));
    let broken = Arc::try_unwrap(table(2, &[("a", 1, "1")])).ok().unwrap().with_damage(damage(0, "damaged entry"));
    let opened = SstConcatIterator::create_and_seek_to_first(vec![table(1, &[]), Arc::new(broken)]);
    assert_eq!(opened.err().unwrap().message, "damaged entry");
}

#[test]
fn two_merge_of_disjoint_sides_is_concatenation() {
    let (a, b) = ([("a", 1, "1"), ("b", 1, "2")], [("c", 1, "3"), ("d", 1, "4")]);
    let merged = TwoMergeIterator::create(iter(&a), iter(&b)).unwrap();
    assert_eq!(drain(merged), owned(&[a, b].concat()));
}
