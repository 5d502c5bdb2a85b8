use std::cell::Cell;
use std::collections::HashMap;
use std::sync::Arc;

use mini_lsm::compact::run::CompactionOutcome;
use mini_lsm::compact::CompactionController;
use mini_lsm::compact::CompactionFilter;
use mini_lsm::compact::CompactionOptions;
use mini_lsm::compact::CompactionTask;
use mini_lsm::compact::LeveledCompactionController;
use mini_lsm::compact::LeveledCompactionOptions;
use mini_lsm::compact::LeveledCompactionTask;
use mini_lsm::compact::ManifestRecord;
use mini_lsm::compact::SimpleLeveledCompactionController;
use mini_lsm::compact::SimpleLeveledCompactionOptions;
use mini_lsm::compact::SimpleLeveledCompactionTask;
use mini_lsm::compact::TieredCompactionController;
use mini_lsm::compact::TieredCompactionOptions;
use mini_lsm::compact::TieredCompactionTask;
use mini_lsm::iterators::StorageIterator;
use mini_lsm::key::KeySlice;
use mini_lsm::lsm_storage::drop_tables;
use mini_lsm::lsm_storage::put_tables;
use mini_lsm::lsm_storage::LsmStorageInner;
use mini_lsm::lsm_storage::LsmStorageOptions;
use mini_lsm::lsm_storage::LsmStorageState;
use mini_lsm::memory::Damage;
use mini_lsm::memory::InMemoryTable;
use mini_lsm::memory::InMemoryTableBuilder;
use mini_lsm::table::Table;
use mini_lsm::table::TableBuilder;

type Row<'a> = (&'a str, u64, &'a str);
type Rows = Vec<(String, u64, String)>;
type State = LsmStorageState<InMemoryTable>;
type Storage = LsmStorageInner<InMemoryTableBuilder, Leveled, Tiered, Simple>;

/// Asks for the first table of L0 over the first level, and says what it was told.
#[derive(Default)]
struct Leveled {
    tables: Vec<usize>,
    recovery: Cell<Option<bool>>,
}

impl LeveledCompactionController<InMemoryTable> for Leveled {
    fn generate_compaction_task(&self, snapshot: &State) -> Option<LeveledCompactionTask> {
        if self.tables.is_empty() {
            return None;
        }
        Some(LeveledCompactionTask {
            upper_level: None,
            upper_level_sst_ids: self.tables.clone(),
            lower_level: 1,
            lower_level_sst_ids: snapshot.levels[0].1.clone(),
            is_lower_level_bottom_level: false,
        })
    }

    fn apply_compaction_result(
        &self,
        snapshot: &State,
        task: &LeveledCompactionTask,
        output: &[usize],
        in_recovery: bool,
    ) -> (State, Vec<usize>) {
        self.recovery.set(Some(in_recovery));
        for id in output {
            assert!(snapshot.sstables.contains_key(id));
        }
        let mut state = snapshot.clone();
        state.l0_sstables.retain(|id| !task.upper_level_sst_ids.contains(id));
        state.levels[0].1 = output.to_vec();
        let mut removed = task.upper_level_sst_ids.clone();
        removed.extend_from_slice(&task.lower_level_sst_ids);
        (state, removed)
    }
}

struct Tiered;

impl TieredCompactionController<InMemoryTable> for Tiered {
    fn generate_compaction_task(&self, snapshot: &State) -> Option<TieredCompactionTask> {
        Some(TieredCompactionTask { tiers: snapshot.levels.clone(), bottom_tier_included: true })
    }

    fn apply_compaction_result(
        &self,
        snapshot: &State,
        task: &TieredCompactionTask,
        output: &[usize],
    ) -> (State, Vec<usize>) {
        let mut state = snapshot.clone();
        state.levels = vec![(output[0], output.to_vec())];
        (state, task.tiers.iter().flat_map(|tier| tier.1.clone()).collect())
    }
}

struct Simple;

impl SimpleLeveledCompactionController<InMemoryTable> for Simple {
    fn generate_compaction_task(&self, snapshot: &State) -> Option<SimpleLeveledCompactionTask> {
        Some(SimpleLeveledCompactionTask {
            upper_level: Some(1),
            upper_level_sst_ids: snapshot.levels[0].1.clone(),
            lower_level: 2,
            lower_level_sst_ids: snapshot.levels[1].1.clone(),
            is_lower_level_bottom_level: true,
        })
    }

    fn apply_compaction_result(
        &self,
        snapshot: &State,
        task: &SimpleLeveledCompactionTask,
        output: &[usize],
    ) -> (State, Vec<usize>) {
        let mut state = snapshot.clone();
        state.levels[0].1.clear();
        state.levels[1].1 = output.to_vec();
        (state, task.upper_level_sst_ids.iter().chain(&task.lower_level_sst_ids).copied().collect())
    }
}

fn table(id: usize, rows: &[Row]) -> Arc<InMemoryTable> {
    let mut builder = InMemoryTableBuilder::new(4096);
    for (key, ts, value) in rows {
        builder.add(KeySlice::from_slice(key.as_bytes(), *ts), value.as_bytes());
    }
    Arc::new(builder.build(id, &None).unwrap())
}

fn rows_of(table: &Arc<InMemoryTable>) -> Rows {
    let mut it = InMemoryTable::create_and_seek_to_first(table.clone()).unwrap();
    let mut rows = Vec::new();
    while it.is_valid() {
        rows.push((
            String::from_utf8(it.key().key_ref().to_vec()).unwrap(),
            it.key().ts(),
            String::from_utf8(it.value().to_vec()).unwrap(),
        ));
        it.next().unwrap();
    }
    rows
}

fn all_rows(tables: &[Arc<InMemoryTable>]) -> Rows {
    tables.iter().flat_map(rows_of).collect()
}

fn damage(idx: usize, message: &str) -> Damage {
    Damage { idx, message: message.to_string() }
}

fn owned(rows: &[Row]) -> Rows {
    rows.iter().map(|(k, t, v)| (k.to_string(), *t, v.to_string())).collect()
}

fn storage_with(
    controller: CompactionController<Leveled, Tiered, Simple>,
    l0: Vec<Arc<InMemoryTable>>,
    levels: Vec<Vec<Arc<InMemoryTable>>>,
) -> Storage {
    let mut sstables = HashMap::new();
    let l0_sstables = put_tables(&mut sstables, l0);
    let mut numbered: Vec<(usize, Vec<usize>)> = Vec::new();
    for (n, level) in levels.into_iter().enumerate() {
        numbered.push((n + 1, put_tables(&mut sstables, level)));
    }
    LsmStorageInner {
        state: LsmStorageState { imm_memtables: vec![], l0_sstables, levels: numbered, sstables },
        options: LsmStorageOptions {
            block_size: 4096,
            target_sst_size: 1 << 20,
            num_memtable_limit: 3,
            compaction_options: CompactionOptions::NoCompaction,
        },
        compaction_controller: controller,
        compaction_filters: vec![],
        watermark: 0,
        next_sst_id: 100,
        store: None,
    }
}

fn storage(l0: Vec<Arc<InMemoryTable>>, levels: Vec<Vec<Arc<InMemoryTable>>>) -> Storage {
    storage_with(CompactionController::NoCompaction, l0, levels)
}

fn compact_rows(storage: &mut Storage, rows: &[Row], bottom: bool) -> Vec<Rows> {
    let iter = InMemoryTable::create_and_seek_to_first(table(0, rows)).unwrap();
    let tables = storage.compact_generate_sst_from_iter(iter, bottom).unwrap();
    tables.iter().map(rows_of).collect()
}

#[test]
fn versions_above_the_watermark_are_kept() {
    let mut s = storage(vec![], vec![]);
    s.watermark = 5;
    let rows = [("a", 9, "3"), ("a", 6, ""), ("a", 5, "1"), ("a", 4, "0"), ("a", 0, "x"), ("b", 3, "2"), ("b", 2, "y")];
    assert_eq!(
        compact_rows(&mut s, &rows, false),
        vec![owned(&[("a", 9, "3"), ("a", 6, ""), ("a", 5, "1"), ("b", 3, "2")])]
    );
}

#[test]
fn deletions_vanish_at_the_bottom_only() {
    let mut s = storage(vec![], vec![]);
    s.watermark = 5;
    let rows = [("a", 9, ""), ("a", 5, ""), ("a", 4, "old"), ("b", 5, ""), ("b", 1, "old"), ("c", 1, "2")];
    assert_eq!(compact_rows(&mut s, &rows, true), vec![owned(&[("a", 9, ""), ("c", 1, "2")])]);
    assert_eq!(
        compact_rows(&mut s, &rows, false),
        vec![owned(&[("a", 9, ""), ("a", 5, ""), ("b", 5, ""), ("c", 1, "2")])]
    );
}

#[test]
fn filters_reach_up_to_the_watermark() {
    let mut s = storage(vec![], vec![]);
    s.watermark = 5;
    s.compaction_filters =
        vec![CompactionFilter::Prefix(b"tmp/".to_vec()), CompactionFilter::Prefix(b"zz".to_vec())];
    let rows = [
        ("tmp", 3, "short"),
        ("tmp/x", 6, "new"),
        ("tmp/x", 5, "filtered"),
        ("tmp/x", 4, "superseded"),
        ("z", 1, "1"),
        ("zz", 1, "2"),
    ];
    assert_eq!(
        compact_rows(&mut s, &rows, false),
        vec![owned(&[("tmp", 3, "short"), ("tmp/x", 6, "new"), ("z", 1, "1")])]
    );
    s.compaction_filters = vec![CompactionFilter::Prefix(vec![])];
    assert_eq!(compact_rows(&mut s, &rows, false), vec![owned(&[("tmp/x", 6, "new")])]);
}

#[test]
fn tables_split_between_user_keys_only() {
    let mut s = storage(vec![], vec![]);
    s.options.target_sst_size = 32;
    // 16 bytes each.
    let rows = [("a", 9, "1"), ("a", 8, "2"), ("a", 7, "3"), ("b", 1, "4"), ("c", 1, "5"), ("d", 1, "6")];
    assert_eq!(
        compact_rows(&mut s, &rows, false),
        vec![
            owned(&[("a", 9, "1"), ("a", 8, "2"), ("a", 7, "3")]),
            owned(&[("b", 1, "4"), ("c", 1, "5")]),
            owned(&[("d", 1, "6")]),
        ]
    );
    assert_eq!(s.next_sst_id, 103);
    s.options.target_sst_size = 33;
    assert_eq!(compact_rows(&mut s, &rows[3..], false).len(), 1);
}

#[test]
fn split_waits_for_a_run_whose_first_version_is_kept() {
    let mut s = storage(vec![], vec![]);
    s.options.target_sst_size = 1;
    s.watermark = 5;
    s.compaction_filters = vec![CompactionFilter::Prefix(b"b".to_vec())];
    let rows = [("a", 9, "1"), ("b", 5, "2"), ("c", 9, "3")];
    assert_eq!(compact_rows(&mut s, &rows, false), vec![owned(&[("a", 9, "1")]), owned(&[("c", 9, "3")])]);
}

#[test]
fn a_target_of_zero_leaves_an_empty_first_table() {
    let mut s = storage(vec![], vec![]);
    s.options.target_sst_size = 0;
    let rows = [("a", 9, "1"), ("b", 9, "2")];
    assert_eq!(
        compact_rows(&mut s, &rows, false),
        vec![owned(&[]), owned(&[("a", 9, "1")]), owned(&[("b", 9, "2")])]
    );
}

#[test]
fn nothing_kept_still_makes_a_table() {
    let mut s = storage(vec![], vec![]);
    s.watermark = 9;
    assert_eq!(compact_rows(&mut s, &[("a", 1, "")], true), vec![owned(&[])]);
    assert_eq!(compact_rows(&mut s, &[], true), vec![owned(&[])]);
    assert_eq!(s.next_sst_id, 102);
}

#[test]
fn compacting_again_changes_nothing() {
    let mut s = storage(vec![], vec![]);
    s.watermark = 5;
    let rows = [("a", 9, "3"), ("a", 5, "1"), ("a", 4, "0"), ("b", 3, ""), ("b", 2, "y"), ("c", 2, "z")];
    for bottom in [false, true] {
        let once = compact_rows(&mut s, &rows, bottom);
        let again: Vec<Row> = once[0].iter().map(|(k, t, v)| (k.as_str(), *t, v.as_str())).collect();
        assert_eq!(compact_rows(&mut s, &again, bottom), once);
    }
}

/// The newest version of a user key that a reader at `ts` sees, deletions left out.
fn read(rows: &Rows, key: &str, ts: u64) -> Option<String> {
    rows.iter().find(|r| r.0 == key && r.1 <= ts).map(|r| r.2.clone()).filter(|v| !v.is_empty())
}

#[test]
fn reads_from_the_watermark_on_stay_the_same() {
    let mut s = storage(vec![], vec![]);
    s.watermark = 5;
    let rows = [("a", 9, "3"), ("a", 6, ""), ("a", 5, "1"), ("a", 4, "0"), ("b", 5, ""), ("b", 2, "y"), ("c", 2, "z")];
    for bottom in [false, true] {
        let kept = compact_rows(&mut s, &rows, bottom).concat();
        for key in ["a", "b", "c", "d"] {
            for ts in 5..11 {
                assert_eq!(read(&kept, key, ts), read(&owned(&rows), key, ts));
            }
        }
    }
}

#[test]
fn ids_start_over_after_the_last() {
    let mut s = storage(vec![], vec![]);
    s.next_sst_id = usize::MAX;
    assert_eq!(s.next_sst_id(), usize::MAX);
    assert_eq!(s.next_sst_id(), 0);
    assert_eq!(s.next_sst_id(), 1);
}

#[test]
fn l0_goes_over_the_level_newest_first() {
    let mut s = storage(
        vec![table(3, &[("a", 1, "newest"), ("d", 1, "3")]), table(2, &[("a", 1, "newer"), ("b", 1, "2")])],
        vec![vec![table(0, &[("a", 1, "old"), ("b", 1, "old")]), table(1, &[("c", 1, "1"), ("d", 1, "old")])]],
    );
    let expected = owned(&[("a", 1, "newest"), ("b", 1, "2"), ("c", 1, "1"), ("d", 1, "3")]);
    for upper_level in [None, Some(0)] {
        let task = CompactionTask::Leveled(LeveledCompactionTask {
            upper_level,
            upper_level_sst_ids: vec![3, 2],
            lower_level: 1,
            lower_level_sst_ids: vec![0, 1],
            is_lower_level_bottom_level: false,
        });
        assert_eq!(all_rows(&s.compact(&task).unwrap()), expected);
        let task = CompactionTask::Simple(SimpleLeveledCompactionTask {
            upper_level,
            upper_level_sst_ids: vec![3, 2],
            lower_level: 1,
            lower_level_sst_ids: vec![0, 1],
            is_lower_level_bottom_level: false,
        });
        assert_eq!(all_rows(&s.compact(&task).unwrap()), expected);
    }
    let task = CompactionTask::ForceFullCompaction { l0_sstables: vec![3, 2], l1_sstables: vec![0, 1] };
    let tables = s.compact(&task).unwrap();
    assert_eq!(all_rows(&tables), expected);
    assert_eq!(tables[0].sst_id(), 104);
    assert_eq!(s.next_sst_id, 105);
    assert_eq!(s.state.l0_sstables, vec![3, 2]);
}

#[test]
fn a_level_goes_over_the_next_one() {
    let mut s = storage(
        vec![],
        vec![
            vec![table(3, &[("a", 1, "upper"), ("b", 1, "upper")]), table(4, &[("d", 1, "upper")])],
            vec![table(1, &[("a", 1, "lower")]), table(2, &[("b", 1, "lower"), ("c", 1, "lower")])],
        ],
    );
    let task = CompactionTask::Leveled(LeveledCompactionTask {
        upper_level: Some(1),
        upper_level_sst_ids: vec![3, 4],
        lower_level: 2,
        lower_level_sst_ids: vec![1, 2],
        is_lower_level_bottom_level: true,
    });
    assert_eq!(
        all_rows(&s.compact(&task).unwrap()),
        owned(&[("a", 1, "upper"), ("b", 1, "upper"), ("c", 1, "lower"), ("d", 1, "upper")])
    );
}

#[test]
fn a_level_is_read_table_after_table() {
    // As tables of L0 these would be merged by key; as tables of a level they follow each other.
    let tables = || vec![table(1, &[("b", 1, "1")]), table(2, &[("a", 1, "2")])];
    let task = |upper_level| {
        CompactionTask::Simple(SimpleLeveledCompactionTask {
            upper_level,
            upper_level_sst_ids: vec![1, 2],
            lower_level: 2,
            lower_level_sst_ids: vec![],
            is_lower_level_bottom_level: true,
        })
    };
    let mut s = storage(tables(), vec![]);
    assert_eq!(all_rows(&s.compact(&task(Some(1))).unwrap()), owned(&[("b", 1, "1"), ("a", 1, "2")]));
    assert_eq!(all_rows(&s.compact(&task(Some(0))).unwrap()), owned(&[("a", 1, "2"), ("b", 1, "1")]));
}

#[test]
fn newer_tiers_go_over_older_ones() {
    let mut s = storage(
        vec![],
        vec![
            vec![table(5, &[("b", 1, "newest")])],
            vec![table(3, &[("a", 1, "newer")]), table(4, &[("b", 1, "newer"), ("d", 1, "newer")])],
            vec![table(1, &[("a", 1, "old"), ("c", 1, "old")])],
        ],
    );
    let task = CompactionTask::Tiered(TieredCompactionTask {
        tiers: s.state.levels.clone(),
        bottom_tier_included: true,
    });
    assert!(task.compact_to_bottom_level());
    assert_eq!(
        all_rows(&s.compact(&task).unwrap()),
        owned(&[("a", 1, "newer"), ("b", 1, "newest"), ("c", 1, "old"), ("d", 1, "newer")])
    );
}

#[test]
fn the_bottom_is_where_the_task_says() {
    let leveled = |bottom| {
        CompactionTask::Leveled(LeveledCompactionTask {
            upper_level: None,
            upper_level_sst_ids: vec![],
            lower_level: 1,
            lower_level_sst_ids: vec![],
            is_lower_level_bottom_level: bottom,
        })
    };
    let simple = |bottom| {
        CompactionTask::Simple(SimpleLeveledCompactionTask {
            upper_level: None,
            upper_level_sst_ids: vec![],
            lower_level: 1,
            lower_level_sst_ids: vec![],
            is_lower_level_bottom_level: bottom,
        })
    };
    let tiered = |bottom| CompactionTask::Tiered(TieredCompactionTask { tiers: vec![], bottom_tier_included: bottom });
    for bottom in [false, true] {
        assert_eq!(leveled(bottom).compact_to_bottom_level(), bottom);
        assert_eq!(simple(bottom).compact_to_bottom_level(), bottom);
        assert_eq!(tiered(bottom).compact_to_bottom_level(), bottom);
    }
    assert!(CompactionTask::ForceFullCompaction { l0_sstables: vec![], l1_sstables: vec![] }
        .compact_to_bottom_level());
}

#[test]
fn known_tables_are_recognised() {
    let s = storage(vec![table(1, &[])], vec![vec![table(2, &[])]]);
    let full = |l0, l1| CompactionTask::ForceFullCompaction { l0_sstables: l0, l1_sstables: l1 };
    assert!(s.state.has_tables_of(&full(vec![1], vec![2])));
    assert!(!s.state.has_tables_of(&full(vec![1, 3], vec![2])));
    assert!(!s.state.has_tables_of(&full(vec![1], vec![3])));
    let tiers = |tiers| CompactionTask::Tiered(TieredCompactionTask { tiers, bottom_tier_included: false });
    assert!(s.state.has_tables_of(&tiers(vec![(7, vec![1]), (8, vec![2, 1])])));
    assert!(!s.state.has_tables_of(&tiers(vec![(7, vec![1]), (8, vec![2, 7])])));
}

#[test]
fn full_compaction_replaces_l0_and_the_first_level() {
    let mut s = storage(
        vec![table(3, &[("a", 7, ""), ("b", 7, "new")])],
        vec![vec![table(1, &[("a", 2, "old"), ("b", 2, "old"), ("c", 2, "old")])], vec![table(9, &[("x", 1, "1")])]],
    );
    s.watermark = 10;
    let done = s.force_full_compaction().unwrap();
    assert_eq!(done.remove_files, vec![3, 1]);
    assert!(matches!(
        &done.record,
        ManifestRecord::Compaction(CompactionTask::ForceFullCompaction { l0_sstables, l1_sstables }, output)
            if *l0_sstables == [3] && *l1_sstables == [1] && *output == [100]
    ));
    assert!(s.state.l0_sstables.is_empty());
    assert_eq!(s.state.levels, vec![(1, vec![100]), (2, vec![9])]);
    assert_eq!(s.state.sstables.len(), 2);
    assert_eq!(rows_of(&s.state.sstables[&100]), owned(&[("b", 7, "new"), ("c", 2, "old")]));
    assert_eq!(s.next_sst_id, 101);
}

/// What L0 and the levels hold, for a reader that looks for the newest version in all of them.
fn read_through(state: &State, key: &str, ts: u64) -> Option<String> {
    let mut rows: Rows = Vec::new();
    for id in state.l0_sstables.iter().chain(state.levels.iter().flat_map(|level| &level.1)) {
        rows.extend(rows_of(&state.sstables[id]));
    }
    rows.sort_by_key(|row| std::cmp::Reverse(row.1));
    read(&rows, key, ts)
}

#[test]
fn full_compaction_keeps_reads_through_the_levels() {
    let mut s = storage(
        vec![table(3, &[("a", 7, "new"), ("b", 6, ""), ("c", 9, "")])],
        vec![
            vec![table(1, &[("a", 2, "old"), ("b", 2, "old")])],
            vec![table(9, &[("a", 1, "oldest"), ("c", 1, "hidden"), ("d", 1, "deep")])],
        ],
    );
    s.watermark = 7;
    let before = s.state.clone();
    s.force_full_compaction().unwrap();
    for key in ["a", "b", "c", "d", "e"] {
        for ts in 7..11 {
            assert_eq!(read_through(&s.state, key, ts), read_through(&before, key, ts));
        }
    }
}

#[test]
fn full_compaction_drops_deletions_over_deeper_levels() {
    let mut s = storage(vec![table(3, &[("c", 5, "")])], vec![vec![], vec![table(9, &[("c", 1, "hidden")])]]);
    s.watermark = 7;
    assert_eq!(read_through(&s.state, "c", 7), None);
    s.force_full_compaction().unwrap();
    assert_eq!(read_through(&s.state, "c", 7), Some("hidden".to_string()));
}

#[test]
fn full_compaction_of_nothing() {
    let mut s = storage(vec![], vec![vec![]]);
    let done = s.force_full_compaction().unwrap();
    assert!(done.remove_files.is_empty());
    assert_eq!(s.state.levels, vec![(1, vec![100])]);
    assert_eq!(s.state.sstables[&100].len(), 0);
}

#[test]
fn full_compaction_that_fails_leaves_the_state() {
    let mut s = storage(vec![table(3, &[("a", 7, "1")])], vec![vec![table(1, &[("b", 2, "2")])]]);
    s.store = Some(16);
    assert_eq!(s.force_full_compaction().err().unwrap().message, "table too large");
    assert_eq!(s.state.l0_sstables, vec![3]);
    assert_eq!(s.state.levels, vec![(1, vec![1])]);
    assert_eq!(s.state.sstables.len(), 2);
    assert_eq!(s.next_sst_id, 101);

    s.store = None;
    let damaged = Arc::try_unwrap(table(1, &[("b", 2, "2")])).ok().unwrap().with_damage(damage(0, "damaged entry"));
    put_tables(&mut s.state.sstables, vec![Arc::new(damaged)]);
    assert_eq!(s.force_full_compaction().err().unwrap().message, "damaged entry");
    assert_eq!(s.state.l0_sstables, vec![3]);
}

#[test]
fn full_compaction_is_installed_into_the_state_of_the_moment() {
    let mut s = storage(vec![table(5, &[]), table(3, &[])], vec![vec![table(1, &[])], vec![table(9, &[])]]);
    let ids = s.state.install_full_compaction(vec![table(20, &[("a", 1, "1")]), table(21, &[])]);
    assert_eq!(ids, vec![20, 21]);
    assert!(s.state.l0_sstables.is_empty());
    assert_eq!(s.state.levels, vec![(1, vec![20, 21]), (2, vec![9])]);
    let mut left: Vec<usize> = s.state.sstables.keys().copied().collect();
    left.sort();
    assert_eq!(left, vec![9, 20, 21]);
}

#[test]
fn trigger_runs_what_the_strategy_asks_for() {
    let leveled = Leveled { tables: vec![3], recovery: Cell::new(None) };
    let mut s = storage_with(
        CompactionController::Leveled(leveled),
        vec![table(4, &[("z", 9, "later")]), table(3, &[("a", 7, "")])],
        vec![vec![table(1, &[("a", 2, "old"), ("c", 2, "1")])]],
    );
    s.watermark = 10;
    let outcome = s.trigger_compaction().unwrap();
    assert_eq!(s.state.l0_sstables, vec![4, 3]);
    match outcome {
        CompactionOutcome::Done { state, remove_files, record } => {
            assert_eq!(remove_files, vec![3, 1]);
            assert!(matches!(
                &record,
                ManifestRecord::Compaction(CompactionTask::Leveled(task), output)
                    if task.upper_level_sst_ids == [3] && *output == [100]
            ));
            assert_eq!(state.l0_sstables, vec![4]);
            assert_eq!(state.levels, vec![(1, vec![100])]);
            assert_eq!(state.sstables.len(), 2);
            assert_eq!(rows_of(&state.sstables[&100]), owned(&[("a", 7, ""), ("c", 2, "1")]));
            s.install_state(state);
        }
        _ => panic!("no compaction was run"),
    }
    assert_eq!(s.state.l0_sstables, vec![4]);
    assert_eq!(s.next_sst_id, 101);
    match &s.compaction_controller {
        CompactionController::Leveled(leveled) => assert_eq!(leveled.recovery.get(), Some(false)),
        _ => unreachable!(),
    }
}

#[test]
fn trigger_without_a_task_is_idle() {
    let mut s = storage_with(CompactionController::Leveled(Leveled::default()), vec![table(3, &[])], vec![vec![]]);
    assert!(matches!(s.trigger_compaction().unwrap(), CompactionOutcome::Idle));
    assert_eq!(s.next_sst_id, 100);
    assert_eq!(s.state.l0_sstables, vec![3]);
}

#[test]
fn trigger_refuses_unknown_tables() {
    let leveled = Leveled { tables: vec![77], recovery: Cell::new(None) };
    let mut s = storage_with(CompactionController::Leveled(leveled), vec![table(3, &[])], vec![vec![]]);
    assert!(matches!(
        s.trigger_compaction().unwrap(),
        CompactionOutcome::Refused(CompactionTask::Leveled(task)) if task.upper_level_sst_ids == [77]
    ));
    assert_eq!(s.next_sst_id, 100);
}

#[test]
fn trigger_hands_errors_on() {
    let leveled = Leveled { tables: vec![3], recovery: Cell::new(None) };
    let mut s =
        storage_with(CompactionController::Leveled(leveled), vec![table(3, &[("a", 1, "1")])], vec![vec![]]);
    s.store = Some(0);
    assert_eq!(s.trigger_compaction().err().unwrap().message, "table too large");
    assert_eq!(s.state.l0_sstables, vec![3]);
}

#[test]
fn tiers_and_simple_levels_are_compacted_too() {
    let mut s = storage_with(
        CompactionController::Tiered(Tiered),
        vec![],
        vec![vec![table(2, &[("a", 1, "new")])], vec![table(1, &[("a", 1, "old"), ("b", 1, "1")])]],
    );
    match s.trigger_compaction().unwrap() {
        CompactionOutcome::Done { state, remove_files, .. } => {
            assert_eq!(remove_files, vec![2, 1]);
            assert_eq!(state.levels, vec![(100, vec![100])]);
            assert_eq!(rows_of(&state.sstables[&100]), owned(&[("a", 1, "new"), ("b", 1, "1")]));
        }
        _ => panic!("no compaction was run"),
    }
    s.compaction_controller = CompactionController::Simple(Simple);
    match s.trigger_compaction().unwrap() {
        CompactionOutcome::Done { state, remove_files, .. } => {
            assert_eq!(remove_files, vec![2, 1]);
            assert_eq!(state.levels, vec![(1, vec![]), (2, vec![101])]);
            assert_eq!(state.sstables.len(), 1);
        }
        _ => panic!("no compaction was run"),
    }
}

#[test]
fn a_compaction_ends_in_the_state_of_the_moment() {
    let s = storage_with(
        CompactionController::Leveled(Leveled::default()),
        vec![table(3, &[])],
        vec![vec![table(1, &[])]],
    );
    let mut current = s.state.clone();
    current.l0_sstables.insert(0, 8);
    put_tables(&mut current.sstables, vec![table(8, &[])]);
    let task = CompactionTask::Leveled(LeveledCompactionTask {
        upper_level: None,
        upper_level_sst_ids: vec![3],
        lower_level: 1,
        lower_level_sst_ids: vec![1],
        is_lower_level_bottom_level: false,
    });
    match s.finish_compaction(current, task, vec![table(20, &[])]) {
        CompactionOutcome::Done { state, remove_files, .. } => {
            assert_eq!(remove_files, vec![3, 1]);
            assert_eq!(state.l0_sstables, vec![8]);
            assert_eq!(state.levels, vec![(1, vec![20])]);
            assert_eq!(state.sstables.len(), 2);
        }
        _ => panic!("no compaction was run"),
    }
}

#[test]
fn recovery_is_handed_to_leveled_compaction() {
    let controller: CompactionController<Leveled, Tiered, Simple> = CompactionController::Leveled(Leveled::default());
    let s = storage(vec![table(3, &[])], vec![vec![table(1, &[])]]);
    let task = CompactionTask::Leveled(LeveledCompactionTask {
        upper_level: None,
        upper_level_sst_ids: vec![3],
        lower_level: 1,
        lower_level_sst_ids: vec![1],
        is_lower_level_bottom_level: false,
    });
    let (state, removed) = controller.apply_compaction_result(&s.state, &task, &[3], true);
    assert_eq!(removed, vec![3, 1]);
    assert_eq!(state.levels, vec![(1, vec![3])]);
    match &controller {
        CompactionController::Leveled(leveled) => assert_eq!(leveled.recovery.get(), Some(true)),
        _ => unreachable!(),
    }
}

#[test]
fn strategies_are_asked_for_their_own_tasks() {
    let s = storage(vec![], vec![vec![table(1, &[])], vec![table(2, &[])]]);
    let ask = |controller: CompactionController<Leveled, Tiered, Simple>| controller.generate_compaction_task(&s.state);
    assert!(ask(CompactionController::Leveled(Leveled::default())).is_none());
    let leveled = Leveled { tables: vec![1], recovery: Cell::new(None) };
    assert!(matches!(ask(CompactionController::Leveled(leveled)), Some(CompactionTask::Leveled(_))));
    assert!(matches!(ask(CompactionController::Tiered(Tiered)), Some(CompactionTask::Tiered(_))));
    assert!(matches!(ask(CompactionController::Simple(Simple)), Some(CompactionTask::Simple(_))));
}

#[test]
fn only_tiers_are_flushed_past_l0() {
    let flushes = |controller: CompactionController<Leveled, Tiered, Simple>| controller.flush_to_l0();
    assert!(flushes(CompactionController::Leveled(Leveled::default())));
    assert!(flushes(CompactionController::Simple(Simple)));
    assert!(flushes(CompactionController::NoCompaction));
    assert!(!flushes(CompactionController::Tiered(Tiered)));
}

#[test]
fn background_compaction_needs_a_strategy() {
    assert!(!CompactionOptions::NoCompaction.compacts_in_background());
    assert!(CompactionOptions::Leveled(LeveledCompactionOptions {
        level_size_multiplier: 10,
        level0_file_num_compaction_trigger: 2,
        max_levels: 4,
        base_level_size_mb: 128,
    })
    .compacts_in_background());
    assert!(CompactionOptions::Simple(SimpleLeveledCompactionOptions {
        size_ratio_percent: 200,
        level0_file_num_compaction_trigger: 2,
        max_levels: 3,
    })
    .compacts_in_background());
    assert!(CompactionOptions::Tiered(TieredCompactionOptions {
        num_tiers: 3,
        max_size_amplification_percent: 200,
        size_ratio: 1,
        min_merge_width: 2,
        max_merge_width: None,
    })
    .compacts_in_background());
}

#[test]
fn a_flush_is_due_at_the_limit() {
    let mut s = storage(vec![], vec![]);
    assert!(!s.trigger_flush());
    s.state.imm_memtables = vec![12, 11];
    assert!(!s.trigger_flush());
    s.state.imm_memtables = vec![13, 12, 11];
    assert!(s.trigger_flush());
    s.state.imm_memtables = vec![14, 13, 12, 11];
    assert!(s.trigger_flush());
}

#[test]
fn tables_are_put_and_dropped_by_number() {
    let mut sstables = HashMap::new();
    assert_eq!(put_tables(&mut sstables, vec![table(5, &[]), table(2, &[]), table(5, &[("a", 1, "1")])]), vec![5, 2, 5]);
    assert_eq!(sstables.len(), 2);
    assert_eq!(sstables[&5].len(), 1);
    drop_tables(&mut sstables, &vec![2, 7, 2]);
    assert_eq!(sstables.len(), 1);
    assert!(sstables.contains_key(&5));
}

#[test]
fn tables_are_looked_up_in_order() {
    let s = storage(vec![table(5, &[("a", 1, "1")]), table(2, &[])], vec![]);
    let ids: Vec<usize> = s.state.get_tables(&vec![2, 5, 2]).iter().map(|t| t.sst_id()).collect();
    assert_eq!(ids, vec![2, 5, 2]);
    let opened = s.state.open_tables(&vec![2, 5]).unwrap();
    assert!(!opened[0].is_valid());
    assert_eq!(opened[1].key().key_ref(), b"a");
}

fn damaged_table(id: usize, rows: &[Row], idx: usize) -> Arc<InMemoryTable> {
    Arc::new(Arc::try_unwrap(table(id, rows)).ok().unwrap().with_damage(damage(idx, "damaged entry")))
}

#[test]
fn a_table_that_cannot_be_opened_comes_before_a_missing_one() {
    let rows = [("a", 1, "1")];
    let run = |tables: Vec<usize>| {
        let leveled = Leveled { tables, recovery: Cell::new(None) };
        let l0 = vec![damaged_table(3, &rows, 0), table(4, &rows)];
        let mut s = storage_with(CompactionController::Leveled(leveled), l0, vec![vec![]]);
        let outcome = s.trigger_compaction();
        assert_eq!(s.next_sst_id, 100);
        outcome
    };
    assert_eq!(run(vec![4, 3, 77]).err().unwrap().message, "damaged entry");
    assert!(matches!(run(vec![4, 77, 3]), Ok(CompactionOutcome::Refused(_))));
}

#[test]
fn missing_tables_are_met_in_the_order_of_opening() {
    let rows = [("a", 1, "1")];
    let s = storage(vec![damaged_table(3, &rows, 0), table(4, &rows)], vec![]);
    let full = |l0, l1| CompactionTask::ForceFullCompaction { l0_sstables: l0, l1_sstables: l1 };
    assert!(!s.state.misses_table_of(&full(vec![4], vec![3])));
    assert!(!s.state.misses_table_of(&full(vec![3, 77], vec![78])));
    assert!(!s.state.misses_table_of(&full(vec![3], vec![77])));
    assert!(s.state.misses_table_of(&full(vec![77, 3], vec![])));
    // The tables of a level are all looked up before one is opened.
    assert!(s.state.misses_table_of(&full(vec![4], vec![3, 77])));
    let level = |upper: Vec<usize>, lower: Vec<usize>| {
        CompactionTask::Leveled(LeveledCompactionTask {
            upper_level: Some(1),
            upper_level_sst_ids: upper,
            lower_level: 2,
            lower_level_sst_ids: lower,
            is_lower_level_bottom_level: false,
        })
    };
    assert!(s.state.misses_table_of(&level(vec![3, 77], vec![])));
    assert!(!s.state.misses_table_of(&level(vec![3], vec![77])));
    // A level is opened up to its first entry only.
    assert!(s.state.misses_table_of(&level(vec![4, 3], vec![77])));
    let tiers = |tiers| CompactionTask::Tiered(TieredCompactionTask { tiers, bottom_tier_included: false });
    assert!(!s.state.misses_table_of(&tiers(vec![(1, vec![4]), (2, vec![3]), (3, vec![77])])));
    assert!(s.state.misses_table_of(&tiers(vec![(1, vec![4]), (2, vec![77]), (3, vec![3])])));
}

#[test]
fn a_compaction_that_cannot_be_opened_draws_no_number() {
    let rows = [("a", 1, "1")];
    for (l0, l1) in [(vec![3], vec![]), (vec![4, 3], vec![]), (vec![4], vec![3])] {
        let mut s = storage(vec![damaged_table(3, &rows, 0), table(4, &rows)], vec![]);
        let task = CompactionTask::ForceFullCompaction { l0_sstables: l0, l1_sstables: l1 };
        assert_eq!(s.compact(&task).err().unwrap().message, "damaged entry");
        assert_eq!(s.next_sst_id, 100);
    }
}

#[test]
fn a_compaction_that_breaks_off_has_drawn_for_finished_tables() {
    let rows = [("a", 9, "1"), ("b", 9, "2"), ("c", 9, "3"), ("d", 9, "4")];
    let mut s = storage(vec![damaged_table(3, &rows, 3)], vec![]);
    s.options.target_sst_size = 1;
    let task = CompactionTask::ForceFullCompaction { l0_sstables: vec![3], l1_sstables: vec![] };
    assert_eq!(s.compact(&task).err().unwrap().message, "damaged entry");
    // "a" and "b" were written, and "c" was being filled.
    assert_eq!(s.next_sst_id, 102);
}

#[test]
fn a_table_that_cannot_be_built_comes_before_the_next_step() {
    let rows = [("a", 9, "1"), ("b", 9, "too large"), ("c", 9, "3"), ("d", 9, "4")];
    let mut s = storage(vec![damaged_table(3, &rows, 3)], vec![]);
    s.options.target_sst_size = 1;
    s.store = Some(16);
    let task = CompactionTask::ForceFullCompaction { l0_sstables: vec![3], l1_sstables: vec![] };
    assert_eq!(s.compact(&task).err().unwrap().message, "table too large");
    assert_eq!(s.next_sst_id, 102);
}

#[test]
fn a_higher_watermark_keeps_no_more() {
    let mut s = storage(vec![], vec![]);
    let rows = [("a", 9, "3"), ("a", 5, ""), ("a", 4, "0"), ("b", 5, ""), ("b", 2, "y"), ("c", 2, "z")];
    for bottom in [false, true] {
        let mut before = owned(&rows);
        for watermark in 0..11 {
            s.watermark = watermark;
            let kept = compact_rows(&mut s, &rows, bottom).concat();
            assert!(kept.iter().all(|row| before.contains(row)));
            before = kept;
        }
    }
}
