//! Running compactions on the storage.

use std::sync::Arc;

use vstd::prelude::*;

use super::CompactionFilter;
use super::CompactionTask;
use super::LeveledCompactionController;
use super::LeveledCompactionTask;
use super::ManifestRecord;
use super::SimpleLeveledCompactionController;
use super::SimpleLeveledCompactionTask;
use super::TieredCompactionController;
use super::TieredCompactionTask;
use crate::error::StorageError;
use crate::fault::fault_after;
use crate::fault::Fault;
use crate::iterators::concat_iterator::SstConcatIterator;
use crate::iterators::merge_iterator::faults_of;
use crate::iterators::merge_iterator::parts_of;
use crate::iterators::merge_iterator::MergeIterator;
use crate::iterators::two_merge_iterator::TwoMergeIterator;
use crate::iterators::StorageIterator;
use crate::key::compare_bytes;
use crate::key::KeyOrder;
use crate::key::KeySlice;
use crate::key::KeyView;
use crate::lsm_storage::drop_tables;
use crate::lsm_storage::nth_id;
use crate::lsm_storage::prefixes;
use crate::lsm_storage::put_tables;
use crate::lsm_storage::without_both;
use crate::lsm_storage::without_tables;
use crate::lsm_storage::LsmStorageInner;
use crate::lsm_storage::LsmStorageState;
use crate::lsm_storage::Opening;
use crate::lsm_storage::StateView;
use crate::merge::Entry;
use crate::retention::kept_at;
use crate::retention::packed;
use crate::retention::packed_first;
use crate::retention::settled;
use crate::retention::starts_run;
use crate::retention::stop_stays;
use crate::retention::stopped;
use crate::retention::stopped_first;
use crate::retention::superseded_follows;
use crate::retention::Stop;
use crate::table::contents;
use crate::table::ids;
use crate::table::Table;
use crate::table::TableBuilder;

verus! {

/// Whether `key` starts with `prefix`.
fn starts_with(key: &[u8], prefix: &[u8]) -> (yes: bool)
    ensures
        yes == prefix@.is_prefix_of(key@),
{
    if prefix.len() > key.len() {
        return false;
    }
    let order = compare_bytes(&key[0..prefix.len()], prefix);
    order == KeyOrder::Equal
}

impl<T: Table> LsmStorageState<T> {
    /// Puts the tables that a full compaction wrote in the place of L0 and of the first level, and lists
    /// their numbers.
    pub fn install_full_compaction(&mut self, new_ssts: Vec<Arc<T>>) -> (new_sst_ids: Vec<usize>)
        requires
            old(self)@.levels.len() > 0,
        ensures
            final(self)@ == old(self)@.after_full_compaction(new_ssts@),
            new_sst_ids@ == ids(new_ssts@),
    {
        let ghost before = self@;
        drop_tables(&mut self.sstables, &self.l0_sstables);
        drop_tables(&mut self.sstables, &self.levels[0].1);
        proof {
            without_both(before.sstables, before.l0_sstables, before.levels[0].1);
        }
        self.l0_sstables.clear();
        let new_sst_ids = put_tables(&mut self.sstables, new_ssts);
        self.levels[0].1 = new_sst_ids.clone();
        assert(self.levels[0].1@ =~= new_sst_ids@);
        assert(self@ =~= before.after_full_compaction(new_ssts@));
        new_sst_ids
    }
}

impl<B: TableBuilder, L, R, S> LsmStorageInner<B, L, R, S> {
    /// `tables` is what a compaction makes of `input`.
    pub open spec fn compacts_to(&self, input: Seq<Entry<KeyView>>, bottom: bool, tables: Seq<Arc<B::Table>>) -> bool {
        &&& contents(tables) == packed(
            input,
            self.retention(bottom),
            self.options.target_sst_size,
            self.size_estimate(),
        )
        &&& forall|i: int| 0 <= i < tables.len() ==> (#[trigger] tables[i]).id() == nth_id(self.next_sst_id, i as nat)
    }

    /// How a compaction of `input` ends that fails, where reading the input breaks off at `fault`.
    pub open spec fn stops(&self, input: Seq<Entry<KeyView>>, fault: Option<Fault>, bottom: bool) -> Option<Stop> {
        stopped(
            input,
            self.retention(bottom),
            self.options.target_sst_size,
            self.size_estimate(),
            fault,
            self.build_errors(),
        )
    }

    /// What a compaction of `input` answers, where reading the input breaks off at `fault`, and the
    /// number that the next table gets after it.
    pub open spec fn compacted(
        &self,
        input: Seq<Entry<KeyView>>,
        fault: Option<Fault>,
        bottom: bool,
        result: Result<Vec<Arc<B::Table>>, StorageError>,
        next_sst_id: usize,
    ) -> bool {
        match self.stops(input, fault, bottom) {
            Some(stop) => {
                &&& result matches Err(e) && e@ == stop.error
                &&& next_sst_id == nth_id(self.next_sst_id, stop.drawn)
            },
            None => result matches Ok(tables) && {
                &&& self.compacts_to(input, bottom, tables@)
                &&& next_sst_id == nth_id(self.next_sst_id, tables@.len())
            },
        }
    }

    /// What a compaction answers that first has to open its tables.
    pub open spec fn opened_and_compacted(
        &self,
        opening: Opening,
        input: Seq<Entry<KeyView>>,
        fault: Option<Fault>,
        bottom: bool,
        result: Result<Vec<Arc<B::Table>>, StorageError>,
        next_sst_id: usize,
    ) -> bool {
        match opening {
            Opening::Failed(error) => {
                &&& result matches Err(e) && e@ == error
                &&& next_sst_id == self.next_sst_id
            },
            _ => self.compacted(input, fault, bottom, result, next_sst_id),
        }
    }

    /// Whether a filter gives up the user key.
    fn filters_key(&self, key: &[u8]) -> (yes: bool)
        ensures
            forall|bottom: bool| yes == #[trigger] self.retention(bottom).filters(key@),
    {
        let ghost names = prefixes(self.compaction_filters@);
        for i in 0..self.compaction_filters.len()
            invariant
                names == prefixes(self.compaction_filters@),
                forall|p: int| 0 <= p < i ==> !(#[trigger] names[p].is_prefix_of(key@)),
        {
            match &self.compaction_filters[i] {
                CompactionFilter::Prefix(x) => {
                    assert(names[i as int] == x@);
                    if starts_with(key, x.as_slice()) {
                        assert forall|bottom: bool| #[trigger] self.retention(bottom).filters(key@) by {
                            assert(self.retention(bottom).prefixes[i as int].is_prefix_of(key@));
                        }
                        return true;
                    }
                },
            }
        }
        false
    }

    /// Writes what the compaction keeps of the entries into new tables.
    ///
    /// Versions above the watermark are kept. Of the versions of a user key at or below it only the
    /// newest is kept, and not even that where it is a deletion and nothing lies below, or where a
    /// filter gives it up. All versions of a user key go into one table.
    #[verifier::rlimit(60)]
    #[verifier::spinoff_prover]
    pub fn compact_generate_sst_from_iter<
        I: for<'a> StorageIterator<Model = KeyView, KeyType<'a> = KeySlice<'a>>,
    >(&mut self, iter: I, compact_to_bottom_level: bool) -> (result: Result<Vec<Arc<B::Table>>, StorageError>)
        requires
            iter.inv(),
        ensures
            final(self).same_but_next_id(old(self)),
            old(self).compacted(
                iter.entries(),
                iter.fault(),
                compact_to_bottom_level,
                result,
                final(self).next_sst_id,
            ),
    {
        let mut iter = iter;
        let ghost s = iter.entries();
        let ghost fault = iter.fault();
        let ghost rules = self.retention(compact_to_bottom_level);
        let ghost target = self.options.target_sst_size;
        let ghost size = self.size_estimate();
        let ghost build_error = self.build_errors();
        let ghost mut n: int = 0;

        let mut builder = B::new(self.options.block_size);
        let mut new_sst: Vec<Arc<B::Table>> = Vec::new();

        let mut prev_key: Option<Vec<u8>> = None;
        let mut first_key = true;
        let watermark: u64 = self.watermark;

        assert(s.skip(0) =~= s);
        assert(contents(new_sst@) =~= packed_first(s, 0, rules, target, size).0);
        #[verifier::loop_isolation(false)]
        while iter.is_valid()
            invariant
                iter.inv(),
                0 <= n <= s.len(),
                iter.entries() == s.skip(n),
                iter.fault() == fault_after(fault, n as nat),
                n < s.len() && fault is Some ==> fault->0.after >= n,
                stopped_first(s, n, rules, target, size, fault, build_error) is None,
                build_error == old(self).build_errors(),
                self.same_but_next_id(old(self)),
                rules == old(self).retention(compact_to_bottom_level),
                watermark == rules.watermark,
                target == old(self).options.target_sst_size,
                size == old(self).size_estimate(),
                builder.inv(),
                builder.block_size() == old(self).options.block_size,
                contents(new_sst@) == packed_first(s, n, rules, target, size).0,
                builder.entries() == packed_first(s, n, rules, target, size).1,
                self.next_sst_id == nth_id(old(self).next_sst_id, new_sst@.len()),
                forall|i: int|
                    0 <= i < new_sst.len() ==> (#[trigger] new_sst[i]).id() == nth_id(old(self).next_sst_id, i as nat),
                match prev_key {
                    None => n == 0,
                    Some(prev) => n > 0 && prev@ == s[n - 1].key.key,
                },
                n > 0 ==> first_key == !settled(s, n - 1, watermark),
            decreases iter.entries().len(),
        {
            let key = iter.key();
            let value_is_empty = iter.value().len() == 0;
            let current_key = key.into_inner();
            let same_prev = match &prev_key {
                Some(prev) => compare_bytes(prev.as_slice(), current_key) == KeyOrder::Equal,
                None => false,
            };
            assert(same_prev == !starts_run(s, n));

            if !same_prev {
                first_key = true;
            }
            proof {
                superseded_follows(s, n, watermark);
            }

            let mut flag_add = true;
            if key.ts() <= watermark {
                if compact_to_bottom_level && value_is_empty && first_key {
                    flag_add = false;
                } else if !first_key {
                    flag_add = false;
                }
                first_key = false;

                if flag_add && self.filters_key(current_key) {
                    flag_add = false;
                }
            }
            assert(rules.filters(current_key@) == self.retention(compact_to_bottom_level).filters(current_key@));
            assert(flag_add == kept_at(s, n, rules));

            if flag_add {
                if !same_prev && builder.estimated_size() >= self.options.target_sst_size {
                    let sst_id: usize = self.next_sst_id();
                    assert(nth_id(old(self).next_sst_id, new_sst@.len() + 1) == self.next_sst_id);
                    proof {
                        let built = new_sst@.len();
                        assert(packed_first(s, n, rules, target, size).0.len() == contents(new_sst@).len());
                        if build_error(built, builder.entries()) is Some {
                            let stop = Stop { error: build_error(built, builder.entries())->0, drawn: built + 1 };
                            assert(stopped_first(s, n + 1, rules, target, size, fault, build_error) == Some(stop));
                            stop_stays(s, n + 1, s.len() as int, rules, target, size, fault, build_error);
                        }
                    }
                    let sst = builder.build(sst_id, &self.store)?;
                    new_sst.push(Arc::new(sst));
                    builder = B::new(self.options.block_size);
                    assert(contents(new_sst@) =~= packed_first(s, n + 1, rules, target, size).0);
                }
                builder.add(iter.key(), iter.value());
            }

            let mut prev: Vec<u8> = Vec::new();
            prev.extend_from_slice(current_key);
            prev_key = Some(prev);
            assert(nth_id(old(self).next_sst_id, new_sst@.len()) == self.next_sst_id);
            proof {
                assert(packed_first(s, n + 1, rules, target, size).0.len() == contents(new_sst@).len());
                if fault is Some && fault->0.after == n {
                    let stop = Stop { error: fault->0.error, drawn: new_sst@.len() };
                    assert(stopped_first(s, n + 1, rules, target, size, fault, build_error) == Some(stop));
                    stop_stays(s, n + 1, s.len() as int, rules, target, size, fault, build_error);
                }
            }
            iter.next()?;
            proof {
                assert(s.skip(n).drop_first() =~= s.skip(n + 1));
                n = n + 1;
            }
        }
        let sst_id: usize = self.next_sst_id();
        assert(nth_id(old(self).next_sst_id, new_sst@.len() + 1) == self.next_sst_id);
        let sst = builder.build(sst_id, &self.store)?;
        new_sst.push(Arc::new(sst));
        assert(contents(new_sst@) =~= packed(s, rules, target, size));
        Ok(new_sst)
    }

    /// Compacts the tables of L0 on one list with those of a level on another.
    fn compact_l0_over(&mut self, upper: &Vec<usize>, lower: &Vec<usize>, bottom: bool) -> (result: Result<
        Vec<Arc<B::Table>>,
        StorageError,
    >)
        requires
            !(old(self).state@.open_l0_over(upper@, lower@) is Missing),
        ensures
            final(self).same_but_next_id(old(self)),
            old(self).opened_and_compacted(
                old(self).state@.open_l0_over(upper@, lower@),
                old(self).state@.l0_over(upper@, lower@),
                old(self).state@.l0_over_fault(upper@, lower@),
                bottom,
                result,
                final(self).next_sst_id,
            ),
    {
        let upper_iters = self.state.open_tables(upper)?;
        let lower_ssts = self.state.get_tables(lower);
        let lower_iter = SstConcatIterator::create_and_seek_to_first(lower_ssts)?;
        let iter = TwoMergeIterator::create(MergeIterator::create(upper_iters), lower_iter)?;
        self.compact_generate_sst_from_iter(iter, bottom)
    }

    /// Compacts the tables of one level on one list with those of the next level on another.
    fn compact_level_over(&mut self, upper: &Vec<usize>, lower: &Vec<usize>, bottom: bool) -> (result: Result<
        Vec<Arc<B::Table>>,
        StorageError,
    >)
        requires
            !(old(self).state@.open_level_over(upper@, lower@) is Missing),
        ensures
            final(self).same_but_next_id(old(self)),
            old(self).opened_and_compacted(
                old(self).state@.open_level_over(upper@, lower@),
                old(self).state@.level_over(upper@, lower@),
                old(self).state@.level_over_fault(upper@, lower@),
                bottom,
                result,
                final(self).next_sst_id,
            ),
    {
        let upper_ssts = self.state.get_tables(upper);
        let upper_iter = SstConcatIterator::create_and_seek_to_first(upper_ssts)?;
        let lower_ssts = self.state.get_tables(lower);
        let lower_iter = SstConcatIterator::create_and_seek_to_first(lower_ssts)?;
        let iter = TwoMergeIterator::create(upper_iter, lower_iter)?;
        self.compact_generate_sst_from_iter(iter, bottom)
    }

    /// Runs a compaction. The new tables belong to no level yet.
    ///
    /// Where a table cannot be opened, the first such error is the answer, and no number is drawn.
    pub fn compact(&mut self, task: &CompactionTask) -> (result: Result<Vec<Arc<B::Table>>, StorageError>)
        requires
            !(old(self).state@.opening(task) is Missing),
        ensures
            final(self).same_but_next_id(old(self)),
            old(self).opened_and_compacted(
                old(self).state@.opening(task),
                old(self).state@.compaction_input(task),
                old(self).state@.compaction_fault(task),
                task.reaches_bottom(),
                result,
                final(self).next_sst_id,
            ),
    {
        let bottom = task.compact_to_bottom_level();
        match task {
            CompactionTask::ForceFullCompaction { l0_sstables, l1_sstables } => self.compact_l0_over(
                l0_sstables,
                l1_sstables,
                bottom,
            ),
            CompactionTask::Simple(SimpleLeveledCompactionTask {
                upper_level,
                upper_level_sst_ids,
                lower_level: _,
                lower_level_sst_ids,
                ..
            })
            | CompactionTask::Leveled(LeveledCompactionTask {
                upper_level,
                upper_level_sst_ids,
                lower_level: _,
                lower_level_sst_ids,
                ..
            }) => match upper_level {
                Some(level) if *level != 0 => self.compact_level_over(
                    upper_level_sst_ids,
                    lower_level_sst_ids,
                    bottom,
                ),
                _ => self.compact_l0_over(upper_level_sst_ids, lower_level_sst_ids, bottom),
            },
            CompactionTask::Tiered(TieredCompactionTask { tiers, .. }) => {
                let mut iters: Vec<Box<SstConcatIterator<B::Table>>> = Vec::with_capacity(tiers.len());
                assert(tiers@.skip(0) =~= tiers@);
                for i in 0..tiers.len()
                    invariant
                        *self == *old(self),
                        *task is Tiered,
                        task->Tiered_0.tiers == *tiers,
                        !(self.state@.opening(task) is Missing),
                        self.state@.open_tiers(tiers@.skip(i as int)) == self.state@.opening(task),
                        iters.len() == i,
                        parts_of(iters@) == self.state@.tier_contents(tiers@).take(i as int),
                        faults_of(iters@) == self.state@.tier_faults(tiers@).take(i as int),
                        forall|j: int| 0 <= j < iters.len() ==> (#[trigger] iters[j]).inv(),
                {
                    assert(tiers@.skip(i as int).drop_first() =~= tiers@.skip(i + 1));
                    let ssts = self.state.get_tables(&tiers[i].1);
                    let iter = SstConcatIterator::create_and_seek_to_first(ssts)?;
                    iters.push(Box::new(iter));
                    assert(parts_of(iters@) =~= self.state@.tier_contents(tiers@).take(i + 1));
                    assert(faults_of(iters@) =~= self.state@.tier_faults(tiers@).take(i + 1));
                }
                assert(parts_of(iters@) =~= self.state@.tier_contents(tiers@));
                assert(faults_of(iters@) =~= self.state@.tier_faults(tiers@));
                self.compact_generate_sst_from_iter(MergeIterator::create(iters), bottom)
            },
        }
    }

    /// Compacts all tables of L0 and of the first level, and puts the new tables in their place.
    ///
    /// What is left to do is to tell the manifest and then to remove the files of the old tables.
    pub fn force_full_compaction(&mut self) -> (result: Result<FullCompaction, StorageError>)
        requires
            old(self).state@.levels.len() > 0,
            !(old(self).state@.open_l0_over(old(self).state@.l0_sstables, old(self).state@.levels[0].1) is Missing),
        ensures
            final(self).same_but_state_and_next_id(old(self)),
            ({
                let l0 = old(self).state@.l0_sstables;
                let l1 = old(self).state@.levels[0].1;
                let input = old(self).state@.l0_over(l0, l1);
                let stop = old(self).stops(input, old(self).state@.l0_over_fault(l0, l1), true);
                match old(self).state@.open_l0_over(l0, l1) {
                    Opening::Failed(error) => {
                        &&& result matches Err(e) && e@ == error
                        &&& final(self).state == old(self).state
                        &&& final(self).next_sst_id == old(self).next_sst_id
                    },
                    _ => if stop is Some {
                        &&& result matches Err(e) && e@ == stop->0.error
                        &&& final(self).state == old(self).state
                        &&& final(self).next_sst_id == nth_id(old(self).next_sst_id, stop->0.drawn)
                    } else {
                        result matches Ok(done) && {
                            &&& done.remove_files@ == l0 + l1
                            &&& done.record matches ManifestRecord::Compaction(task, output) && {
                                &&& task matches CompactionTask::ForceFullCompaction { l0_sstables, l1_sstables }
                                    && l0_sstables@ == l0 && l1_sstables@ == l1
                                &&& exists|tables: Seq<Arc<B::Table>>| #[trigger]
                                    old(self).compacts_to(input, true, tables) && {
                                        &&& output@ == ids(tables)
                                        &&& final(self).state@ == old(self).state@.after_full_compaction(tables)
                                        &&& final(self).next_sst_id == nth_id(old(self).next_sst_id, tables.len())
                                    }
                            }
                        }
                    },
                }
            }),
    {
        let ghost before = self.state@;
        let l0_sstables = self.state.l0_sstables.clone();
        let l1_sstables = self.state.levels[0].1.clone();
        let mut remove_files = self.state.l0_sstables.clone();
        remove_files.extend_from_slice(self.state.levels[0].1.as_slice());
        assert(l0_sstables@ =~= before.l0_sstables);
        assert(l1_sstables@ =~= before.levels[0].1);
        assert(remove_files@ =~= before.l0_sstables + before.levels[0].1);

        let compaction_task = CompactionTask::ForceFullCompaction { l0_sstables, l1_sstables };
        let new_ssts = self.compact(&compaction_task)?;
        let ghost tables = new_ssts@;

        let new_sst_ids = self.state.install_full_compaction(new_ssts);
        Ok(
            FullCompaction {
                record: ManifestRecord::Compaction(compaction_task, new_sst_ids),
                remove_files,
            },
        )
    }
}

impl<B: TableBuilder, L, R, S> LsmStorageInner<B, L, R, S> where
    L: LeveledCompactionController<B::Table>,
    R: TieredCompactionController<B::Table>,
    S: SimpleLeveledCompactionController<B::Table>,
 {
    /// `state` is what may become of `current` once `task` has written `tables`: the strategy is handed
    /// the current state with the new tables put in, and the tables that it removes are taken out of
    /// the state that it answers with.
    pub open spec fn concludes(
        &self,
        current: StateView<B::Table>,
        task: CompactionTask,
        tables: Seq<Arc<B::Table>>,
        state: StateView<B::Table>,
        remove_files: Vec<usize>,
    ) -> bool {
        exists|snapshot: LsmStorageState<B::Table>, output: &[usize], applied: LsmStorageState<B::Table>| #[trigger]
            self.compaction_controller.applies(&snapshot, &task, output, false, applied, remove_files) && {
                &&& snapshot@ == current.with_new_tables(tables)
                &&& output@ == ids(tables)
                &&& state == (StateView {
                    sstables: without_tables(applied@.sstables, remove_files@),
                    ..applied@
                })
            }
    }

    /// Lets the strategy in use work out what becomes of the current state once the task has written
    /// its tables.
    pub fn finish_compaction(
        &self,
        current: LsmStorageState<B::Table>,
        task: CompactionTask,
        new_sstables: Vec<Arc<B::Table>>,
    ) -> (outcome: CompactionOutcome<B::Table>)
        requires
            self.compaction_controller.handles(&task),
        ensures
            outcome matches CompactionOutcome::Done { state, remove_files, record } && {
                &&& record matches ManifestRecord::Compaction(recorded, output) && recorded == task && output@ == ids(
                    new_sstables@,
                )
                &&& self.concludes(current@, task, new_sstables@, state@, remove_files)
            },
    {
        let mut snapshot = current;
        let output = put_tables(&mut snapshot.sstables, new_sstables);
        assert(snapshot@ =~= current@.with_new_tables(new_sstables@));
        let listed = output.as_slice();
        let (applied, remove_files) = self.compaction_controller.apply_compaction_result(
            &snapshot,
            &task,
            listed,
            false,
        );
        let ghost answer = applied;
        assert(self.compaction_controller.applies(&snapshot, &task, listed, false, answer, remove_files));
        let mut state = applied;
        drop_tables(&mut state.sstables, &remove_files);
        assert(state@ =~= (StateView { sstables: without_tables(answer@.sstables, remove_files@), ..answer@ }));
        assert(self.concludes(current@, task, new_sstables@, state@, remove_files));
        CompactionOutcome::Done { state, remove_files, record: ManifestRecord::Compaction(task, output) }
    }

    /// Runs the compaction that the strategy in use asks for, if it asks for one.
    ///
    /// What is left to do is to remove the files, to install the new state with `install_state`, and to
    /// tell the manifest.
    pub fn trigger_compaction(&mut self) -> (result: Result<CompactionOutcome<B::Table>, StorageError>)
        requires
            !(old(self).compaction_controller is NoCompaction),
        ensures
            final(self).same_but_next_id(old(self)),
            exists|generated: Option<CompactionTask>| #[trigger]
                old(self).compaction_controller.generates(&old(self).state, generated) && match generated {
                    None => {
                        &&& result matches Ok(outcome) && outcome is Idle
                        &&& final(self).next_sst_id == old(self).next_sst_id
                    },
                    Some(task) => {
                        let input = old(self).state@.compaction_input(&task);
                        let bottom = task.reaches_bottom();
                        let stop = old(self).stops(input, old(self).state@.compaction_fault(&task), bottom);
                        match old(self).state@.opening(&task) {
                            Opening::Missing => {
                                &&& result matches Ok(outcome) && outcome == CompactionOutcome::<B::Table>::Refused(task)
                                &&& final(self).next_sst_id == old(self).next_sst_id
                            },
                            Opening::Failed(error) => {
                                &&& result matches Err(e) && e@ == error
                                &&& final(self).next_sst_id == old(self).next_sst_id
                            },
                            Opening::Done => if stop is Some {
                                &&& result matches Err(e) && e@ == stop->0.error
                                &&& final(self).next_sst_id == nth_id(old(self).next_sst_id, stop->0.drawn)
                            } else {
                                result matches Ok(outcome) && outcome matches CompactionOutcome::Done {
                                    state,
                                    remove_files,
                                    record,
                                } && record matches ManifestRecord::Compaction(recorded, output) && recorded == task
                                    && exists|tables: Seq<Arc<B::Table>>| #[trigger]
                                    old(self).compacts_to(input, bottom, tables) && {
                                        &&& output@ == ids(tables)
                                        &&& old(self).concludes(old(self).state@, task, tables, state@, remove_files)
                                        &&& final(self).next_sst_id == nth_id(old(self).next_sst_id, tables.len())
                                    }
                            },
                        }
                    },
                },
    {
        let task = match self.compaction_controller.generate_compaction_task(&self.state) {
            Some(task) => task,
            None => {
                return Ok(CompactionOutcome::Idle);
            },
        };
        let ghost generated = Some(task);
        assert(self.compaction_controller.generates(&self.state, generated));
        if self.state.misses_table_of(&task) {
            return Ok(CompactionOutcome::Refused(task));
        }
        let new_sstables = self.compact(&task)?;
        let current = self.state.clone();
        Ok(self.finish_compaction(current, task, new_sstables))
    }
}

impl<B: TableBuilder, L, R, S> LsmStorageInner<B, L, R, S> {
    /// Puts a new state in the place of the current one.
    pub fn install_state(&mut self, state: LsmStorageState<B::Table>)
        ensures
            final(self).state == state,
            final(self).next_sst_id == old(self).next_sst_id,
            final(self).same_but_state_and_next_id(old(self)),
    {
        self.state = state;
    }
}

/// What came of looking for a compaction.
pub enum CompactionOutcome<T> {
    /// The strategy asked for none.
    Idle,
    /// The strategy asked to compact a table that is not there.
    Refused(CompactionTask),
    /// A compaction was run.
    Done {
        /// The new state.
        state: LsmStorageState<T>,
        /// The tables whose files are to be removed.
        remove_files: Vec<usize>,
        /// What the manifest is to be told.
        record: ManifestRecord,
    },
}

/// What is left to do after a full compaction.
pub struct FullCompaction {
    /// What the manifest is to be told.
    pub record: ManifestRecord,
    /// The tables whose files are to be removed.
    pub remove_files: Vec<usize>,
}

} // verus!
