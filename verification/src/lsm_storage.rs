//! The state of the storage.

use std::collections::HashMap;
use std::sync::Arc;

use vstd::prelude::*;

use crate::compact::CompactionController;
use crate::compact::CompactionFilter;
use crate::compact::CompactionOptions;
use crate::compact::CompactionTask;
use crate::compact::LeveledCompactionTask;
use crate::compact::SimpleLeveledCompactionTask;
use crate::compact::TieredCompactionTask;
use crate::error::StorageError;
use crate::fault::merge_all_fault;
use crate::fault::merge_fault;
use crate::fault::opening_error;
use crate::fault::table_faults;
use crate::fault::tables_fault;
use crate::fault::Fault;
use crate::iterators::concat_iterator::SstConcatIterator;
use crate::iterators::merge_iterator::faults_of;
use crate::iterators::merge_iterator::parts_of;
use crate::iterators::StorageIterator;
use crate::key::KeyView;
use crate::merge::merge;
use crate::merge::merge_all;
use crate::merge::Entry;
use crate::retention::RetentionRules;
use crate::table::contents;
use crate::table::ids;
use crate::table::Table;
use crate::table::TableBuilder;

verus! {

broadcast use vstd::std_specs::hash::group_hash_axioms;

/// Which tables there are, and where they belong.
pub struct LsmStorageState<T> {
    /// The memtables that are waiting to be flushed, newest first.
    pub imm_memtables: Vec<usize>,
    /// The tables of L0, newest first.
    pub l0_sstables: Vec<usize>,
    /// The levels, or tiers: the number of each and its tables.
    pub levels: Vec<(usize, Vec<usize>)>,
    /// The tables by number.
    pub sstables: HashMap<usize, Arc<T>>,
}

/// The state as a value.
#[verifier::ext_equal]
pub struct StateView<T> {
    pub imm_memtables: Seq<usize>,
    pub l0_sstables: Seq<usize>,
    pub levels: Seq<(usize, Seq<usize>)>,
    pub sstables: Map<usize, Arc<T>>,
}

/// The levels as a value.
pub open spec fn levels_view(levels: Seq<(usize, Vec<usize>)>) -> Seq<(usize, Seq<usize>)> {
    levels.map_values(|level: (usize, Vec<usize>)| (level.0, level.1@))
}

impl<T> View for LsmStorageState<T> {
    type V = StateView<T>;

    open spec fn view(&self) -> StateView<T> {
        StateView {
            imm_memtables: self.imm_memtables@,
            l0_sstables: self.l0_sstables@,
            levels: levels_view(self.levels@),
            sstables: self.sstables@,
        }
    }
}

/// What comes of opening tables.
pub enum Opening {
    /// They are open.
    Done,
    /// One of them is not there.
    Missing,
    /// One of them could not be opened, for this error.
    Failed(Seq<char>),
}

impl Opening {
    /// Whether a missing table was met. `None` where one that could not be opened was met.
    pub open spec fn misses(self) -> Option<bool> {
        match self {
            Opening::Done => Some(false),
            Opening::Missing => Some(true),
            Opening::Failed(_) => None,
        }
    }

    /// What comes of it, where something else is opened only after this was done.
    pub open spec fn followed_by(self, next: Opening) -> Opening {
        match self {
            Opening::Done => next,
            _ => self,
        }
    }
}

/// `sstables` with further tables put in, one after another.
pub open spec fn with_tables<T: Table>(sstables: Map<usize, Arc<T>>, tables: Seq<Arc<T>>) -> Map<usize, Arc<T>>
    decreases tables.len(),
{
    if tables.len() == 0 {
        sstables
    } else {
        with_tables(sstables, tables.drop_last()).insert(tables.last().id(), tables.last())
    }
}

/// `sstables` without the tables of the given numbers.
pub open spec fn without_tables<T>(sstables: Map<usize, Arc<T>>, removed: Seq<usize>) -> Map<usize, Arc<T>> {
    sstables.remove_keys(removed.to_set())
}

impl<T: Table> StateView<T> {
    /// The tables of the given numbers.
    pub open spec fn tables(self, ids: Seq<usize>) -> Seq<Arc<T>> {
        ids.map_values(|id: usize| self.sstables[id])
    }

    /// Every one of the numbers is that of a table.
    pub open spec fn knows(self, ids: Seq<usize>) -> bool {
        forall|i: int| 0 <= i < ids.len() ==> self.sstables.contains_key(#[trigger] ids[i])
    }

    /// What the tables of L0, newest first, hold over the tables of a level.
    pub open spec fn l0_over(self, upper: Seq<usize>, lower: Seq<usize>) -> Seq<Entry<KeyView>> {
        merge(merge_all(contents(self.tables(upper))), contents(self.tables(lower)).flatten())
    }

    /// What the tables of one level hold over the tables of another.
    pub open spec fn level_over(self, upper: Seq<usize>, lower: Seq<usize>) -> Seq<Entry<KeyView>> {
        merge(contents(self.tables(upper)).flatten(), contents(self.tables(lower)).flatten())
    }

    /// What each of the tiers holds.
    pub open spec fn tier_contents(self, tiers: Seq<(usize, Vec<usize>)>) -> Seq<Seq<Entry<KeyView>>> {
        tiers.map_values(|tier: (usize, Vec<usize>)| contents(self.tables(tier.1@)).flatten())
    }

    /// The entries that a compaction reads. Entries of upper levels, of newer tables in L0 and of newer
    /// tiers are preferred.
    pub open spec fn compaction_input(self, task: &CompactionTask) -> Seq<Entry<KeyView>> {
        match task {
            CompactionTask::ForceFullCompaction { l0_sstables, l1_sstables } => self.l0_over(
                l0_sstables@,
                l1_sstables@,
            ),
            CompactionTask::Simple(task) => if task.upper_level is Some && task.upper_level->0 != 0 {
                self.level_over(task.upper_level_sst_ids@, task.lower_level_sst_ids@)
            } else {
                self.l0_over(task.upper_level_sst_ids@, task.lower_level_sst_ids@)
            },
            CompactionTask::Leveled(task) => if task.upper_level is Some && task.upper_level->0 != 0 {
                self.level_over(task.upper_level_sst_ids@, task.lower_level_sst_ids@)
            } else {
                self.l0_over(task.upper_level_sst_ids@, task.lower_level_sst_ids@)
            },
            CompactionTask::Tiered(task) => merge_all(self.tier_contents(task.tiers@)),
        }
    }

    /// Every table that the task reads is there.
    pub open spec fn knows_tables_of(self, task: &CompactionTask) -> bool {
        forall|id: usize| #[trigger] task.reads(id) ==> self.sstables.contains_key(id)
    }

    /// What comes of looking up tables by number and opening them, each before the next is looked up.
    pub open spec fn open_each(self, ids: Seq<usize>) -> Opening
        decreases ids.len(),
    {
        if ids.len() == 0 {
            Opening::Done
        } else if !self.sstables.contains_key(ids[0]) {
            Opening::Missing
        } else {
            match self.sstables[ids[0]].open_error() {
                Some(error) => Opening::Failed(error),
                None => self.open_each(ids.drop_first()),
            }
        }
    }

    /// What comes of looking up tables by number and then opening them up to the first that has an
    /// entry.
    pub open spec fn open_in_turn(self, ids: Seq<usize>) -> Opening {
        if !self.knows(ids) {
            Opening::Missing
        } else {
            match opening_error(self.tables(ids)) {
                Some(error) => Opening::Failed(error),
                None => Opening::Done,
            }
        }
    }

    /// What comes of opening tiers one after another.
    pub open spec fn open_tiers(self, tiers: Seq<(usize, Vec<usize>)>) -> Opening
        decreases tiers.len(),
    {
        if tiers.len() == 0 {
            Opening::Done
        } else {
            self.open_in_turn(tiers[0].1@).followed_by(self.open_tiers(tiers.drop_first()))
        }
    }

    /// What comes of opening the tables of L0 on one list and then those of a level on another.
    pub open spec fn open_l0_over(self, upper: Seq<usize>, lower: Seq<usize>) -> Opening {
        self.open_each(upper).followed_by(self.open_in_turn(lower))
    }

    /// What comes of opening the tables of one level and then those of another.
    pub open spec fn open_level_over(self, upper: Seq<usize>, lower: Seq<usize>) -> Opening {
        self.open_in_turn(upper).followed_by(self.open_in_turn(lower))
    }

    /// What comes of opening the tables of a task.
    pub open spec fn opening(self, task: &CompactionTask) -> Opening {
        match task {
            CompactionTask::ForceFullCompaction { l0_sstables, l1_sstables } => self.open_l0_over(
                l0_sstables@,
                l1_sstables@,
            ),
            CompactionTask::Simple(task) => if task.upper_level is Some && task.upper_level->0 != 0 {
                self.open_level_over(task.upper_level_sst_ids@, task.lower_level_sst_ids@)
            } else {
                self.open_l0_over(task.upper_level_sst_ids@, task.lower_level_sst_ids@)
            },
            CompactionTask::Leveled(task) => if task.upper_level is Some && task.upper_level->0 != 0 {
                self.open_level_over(task.upper_level_sst_ids@, task.lower_level_sst_ids@)
            } else {
                self.open_l0_over(task.upper_level_sst_ids@, task.lower_level_sst_ids@)
            },
            CompactionTask::Tiered(task) => self.open_tiers(task.tiers@),
        }
    }

    /// Where reading `l0_over` breaks off.
    pub open spec fn l0_over_fault(self, upper: Seq<usize>, lower: Seq<usize>) -> Option<Fault> {
        merge_fault(
            merge_all(contents(self.tables(upper))),
            merge_all_fault(contents(self.tables(upper)), table_faults(self.tables(upper))),
            contents(self.tables(lower)).flatten(),
            tables_fault(self.tables(lower)),
        )
    }

    /// Where reading `level_over` breaks off.
    pub open spec fn level_over_fault(self, upper: Seq<usize>, lower: Seq<usize>) -> Option<Fault> {
        merge_fault(
            contents(self.tables(upper)).flatten(),
            tables_fault(self.tables(upper)),
            contents(self.tables(lower)).flatten(),
            tables_fault(self.tables(lower)),
        )
    }

    /// Where reading each of the tiers breaks off.
    pub open spec fn tier_faults(self, tiers: Seq<(usize, Vec<usize>)>) -> Seq<Option<Fault>> {
        tiers.map_values(|tier: (usize, Vec<usize>)| tables_fault(self.tables(tier.1@)))
    }

    /// Where reading `compaction_input` breaks off, once the tables of the task are open.
    pub open spec fn compaction_fault(self, task: &CompactionTask) -> Option<Fault> {
        match task {
            CompactionTask::ForceFullCompaction { l0_sstables, l1_sstables } => self.l0_over_fault(
                l0_sstables@,
                l1_sstables@,
            ),
            CompactionTask::Simple(task) => if task.upper_level is Some && task.upper_level->0 != 0 {
                self.level_over_fault(task.upper_level_sst_ids@, task.lower_level_sst_ids@)
            } else {
                self.l0_over_fault(task.upper_level_sst_ids@, task.lower_level_sst_ids@)
            },
            CompactionTask::Leveled(task) => if task.upper_level is Some && task.upper_level->0 != 0 {
                self.level_over_fault(task.upper_level_sst_ids@, task.lower_level_sst_ids@)
            } else {
                self.l0_over_fault(task.upper_level_sst_ids@, task.lower_level_sst_ids@)
            },
            CompactionTask::Tiered(task) => merge_all_fault(
                self.tier_contents(task.tiers@),
                self.tier_faults(task.tiers@),
            ),
        }
    }

    /// The state with further tables put in. They belong to no level yet.
    pub open spec fn with_new_tables(self, tables: Seq<Arc<T>>) -> StateView<T> {
        StateView { sstables: with_tables(self.sstables, tables), ..self }
    }

    /// The state once L0 and the first level have been replaced by `tables`.
    pub open spec fn after_full_compaction(self, tables: Seq<Arc<T>>) -> StateView<T> {
        StateView {
            l0_sstables: Seq::empty(),
            levels: self.levels.update(0, (self.levels[0].0, ids(tables))),
            sstables: with_tables(
                without_tables(self.sstables, self.l0_sstables + self.levels[0].1),
                tables,
            ),
            ..self
        }
    }
}

impl<T> Clone for LsmStorageState<T> {
    fn clone(&self) -> (copy: Self)
        ensures
            copy@ == self@,
    {
        let mut levels: Vec<(usize, Vec<usize>)> = Vec::new();
        for i in 0..self.levels.len()
            invariant
                levels_view(levels@) == levels_view(self.levels@).take(i as int),
        {
            let ghost before = levels@;
            let tables = self.levels[i].1.clone();
            assert(tables@ =~= self.levels[i as int].1@);
            levels.push((self.levels[i].0, tables));
            assert(levels_view(levels@) =~= levels_view(before).push((self.levels[i as int].0, tables@)));
            assert(levels_view(levels@) =~= levels_view(self.levels@).take(i + 1));
        }
        let copy = LsmStorageState {
            imm_memtables: self.imm_memtables.clone(),
            l0_sstables: self.l0_sstables.clone(),
            levels,
            sstables: self.sstables.clone(),
        };
        assert(copy@ =~= self@);
        copy
    }
}

impl<T: 'static + Table> LsmStorageState<T> {
    /// Looks up tables by number.
    pub fn get_tables(&self, ids: &Vec<usize>) -> (tables: Vec<Arc<T>>)
        requires
            self@.knows(ids@),
        ensures
            tables@ == self@.tables(ids@),
    {
        let mut tables: Vec<Arc<T>> = Vec::with_capacity(ids.len());
        for i in 0..ids.len()
            invariant
                self@.knows(ids@),
                tables@ == self@.tables(ids@).take(i as int),
        {
            let id: usize = ids[i];
            tables.push(self.sstables.get(&id).unwrap().clone());
            assert(tables@ =~= self@.tables(ids@).take(i + 1));
        }
        assert(tables@ =~= self@.tables(ids@));
        tables
    }

    /// Looks up tables by number and opens each of them at its first entry, before it looks up the next.
    pub fn open_tables(&self, ids: &Vec<usize>) -> (result: Result<Vec<Box<T::Iter>>, StorageError>)
        requires
            !(self@.open_each(ids@) is Missing),
        ensures
            match self@.open_each(ids@) {
                Opening::Failed(error) => result matches Err(e) && e@ == error,
                _ => result matches Ok(iters) && {
                    &&& parts_of(iters@) == contents(self@.tables(ids@))
                    &&& faults_of(iters@) == table_faults(self@.tables(ids@))
                    &&& forall|i: int| 0 <= i < iters.len() ==> (#[trigger] iters[i]).inv()
                },
            },
    {
        let mut iters: Vec<Box<T::Iter>> = Vec::with_capacity(ids.len());
        assert(ids@.skip(0) =~= ids@);
        for i in 0..ids.len()
            invariant
                !(self@.open_each(ids@) is Missing),
                self@.open_each(ids@.skip(i as int)) == self@.open_each(ids@),
                iters.len() == i,
                parts_of(iters@) == contents(self@.tables(ids@)).take(i as int),
                faults_of(iters@) == table_faults(self@.tables(ids@)).take(i as int),
                forall|j: int| 0 <= j < iters.len() ==> (#[trigger] iters[j]).inv(),
        {
            let id: usize = ids[i];
            assert(ids@.skip(i as int).drop_first() =~= ids@.skip(i + 1));
            assert(self@.tables(ids@)[i as int] == self@.sstables[id]);
            let iter = T::create_and_seek_to_first(self.sstables.get(&id).unwrap().clone())?;
            iters.push(Box::new(iter));
            assert(parts_of(iters@) =~= contents(self@.tables(ids@)).take(i + 1));
            assert(faults_of(iters@) =~= table_faults(self@.tables(ids@)).take(i + 1));
        }
        assert(parts_of(iters@) =~= contents(self@.tables(ids@)));
        assert(faults_of(iters@) =~= table_faults(self@.tables(ids@)));
        Ok(iters)
    }

    /// Whether a missing table is met when each table is opened before the next is looked up. `None`
    /// where a table that cannot be opened is met first.
    fn misses_each(&self, ids: &Vec<usize>) -> (missing: Option<bool>)
        ensures
            missing == self@.open_each(ids@).misses(),
    {
        assert(ids@.skip(0) =~= ids@);
        for i in 0..ids.len()
            invariant
                self@.open_each(ids@.skip(i as int)) == self@.open_each(ids@),
        {
            let id: usize = ids[i];
            assert(ids@.skip(i as int).drop_first() =~= ids@.skip(i + 1));
            match self.sstables.get(&id) {
                Some(table) => {
                    if T::create_and_seek_to_first(table.clone()).is_err() {
                        return None;
                    }
                },
                None => {
                    return Some(true);
                },
            }
        }
        Some(false)
    }

    /// Whether a missing table is met when all tables are looked up before they are opened. `None`
    /// where a table that cannot be opened is met.
    fn misses_in_turn(&self, ids: &Vec<usize>) -> (missing: Option<bool>)
        ensures
            missing == self@.open_in_turn(ids@).misses(),
    {
        if !self.has_tables(ids) {
            return Some(true);
        }
        if SstConcatIterator::create_and_seek_to_first(self.get_tables(ids)).is_err() {
            None
        } else {
            Some(false)
        }
    }

    /// Whether opening the tables of the task comes upon one that is not there. Tables are opened only
    /// where one is missing, to see whether one that cannot be opened comes before it.
    pub fn misses_table_of(&self, task: &CompactionTask) -> (missing: bool)
        ensures
            missing == (self@.opening(task) is Missing),
    {
        if self.has_tables_of(task) {
            proof {
                self@.known_tables_are_not_missed(task);
            }
            return false;
        }
        match task {
            CompactionTask::ForceFullCompaction { l0_sstables, l1_sstables } => match self.misses_each(l0_sstables) {
                Some(true) => true,
                Some(false) => matches!(self.misses_in_turn(l1_sstables), Some(true)),
                None => false,
            },
            CompactionTask::Simple(SimpleLeveledCompactionTask {
                upper_level,
                upper_level_sst_ids,
                lower_level: _,
                lower_level_sst_ids,
                ..
            })
            | CompactionTask::Leveled(LeveledCompactionTask {
                upper_level,
                upper_level_sst_ids,
                lower_level: _,
                lower_level_sst_ids,
                ..
            }) => {
                let upper = match upper_level {
                    Some(level) if *level != 0 => self.misses_in_turn(upper_level_sst_ids),
                    _ => self.misses_each(upper_level_sst_ids),
                };
                match upper {
                    Some(true) => true,
                    Some(false) => matches!(self.misses_in_turn(lower_level_sst_ids), Some(true)),
                    None => false,
                }
            },
            CompactionTask::Tiered(TieredCompactionTask { tiers, .. }) => {
                assert(tiers@.skip(0) =~= tiers@);
                for i in 0..tiers.len()
                    invariant
                        *task is Tiered,
                        task->Tiered_0.tiers == *tiers,
                        self@.open_tiers(tiers@.skip(i as int)) == self@.open_tiers(tiers@),
                {
                    assert(tiers@.skip(i as int).drop_first() =~= tiers@.skip(i + 1));
                    match self.misses_in_turn(&tiers[i].1) {
                        Some(true) => {
                            return true;
                        },
                        Some(false) => {},
                        None => {
                            return false;
                        },
                    }
                }
                false
            },
        }
    }

    fn has_tables(&self, ids: &Vec<usize>) -> (yes: bool)
        ensures
            yes == self@.knows(ids@),
    {
        for i in 0..ids.len()
            invariant
                self@.knows(ids@.take(i as int)),
        {
            let id: usize = ids[i];
            if !self.sstables.contains_key(&id) {
                return false;
            }
            assert forall|j: int| 0 <= j < i + 1 implies self@.sstables.contains_key(#[trigger] ids@.take(i + 1)[j]) by {
                if j < i {
                    assert(ids@.take(i as int)[j] == ids@[j]);
                }
            }
        }
        assert(ids@.take(ids.len() as int) =~= ids@);
        true
    }

    /// Whether every table that the task reads is there.
    pub fn has_tables_of(&self, task: &CompactionTask) -> (yes: bool)
        ensures
            yes == self@.knows_tables_of(task),
    {
        match task {
            CompactionTask::ForceFullCompaction { l0_sstables, l1_sstables } => {
                let yes = self.has_tables(l0_sstables) && self.has_tables(l1_sstables);
                proof {
                    self@.knows_two_lists(task, l0_sstables@, l1_sstables@);
                }
                yes
            },
            CompactionTask::Simple(t) => {
                let yes = self.has_tables(&t.upper_level_sst_ids) && self.has_tables(&t.lower_level_sst_ids);
                proof {
                    self@.knows_two_lists(task, t.upper_level_sst_ids@, t.lower_level_sst_ids@);
                }
                yes
            },
            CompactionTask::Leveled(t) => {
                let yes = self.has_tables(&t.upper_level_sst_ids) && self.has_tables(&t.lower_level_sst_ids);
                proof {
                    self@.knows_two_lists(task, t.upper_level_sst_ids@, t.lower_level_sst_ids@);
                }
                yes
            },
            CompactionTask::Tiered(t) => {
                for i in 0..t.tiers.len()
                    invariant
                        *task is Tiered,
                        task->Tiered_0 == *t,
                        forall|j: int| 0 <= j < i ==> self@.knows((#[trigger] t.tiers[j]).1@),
                {
                    if !self.has_tables(&t.tiers[i].1) {
                        proof {
                            if self@.knows_tables_of(task) {
                                assert forall|id: usize| #[trigger] t.tiers[i as int].1@.contains(id) implies task.reads(
                                    id,
                                ) by {}
                                self@.knows_listed(task, t.tiers[i as int].1@);
                            }
                        }
                        return false;
                    }
                }
                assert forall|id: usize| #[trigger] task.reads(id) implies self@.sstables.contains_key(id) by {
                    let j = choose|j: int| 0 <= j < t.tiers.len() && (#[trigger] t.tiers[j]).1@.contains(id);
                    assert(self@.knows(t.tiers[j].1@));
                }
                true
            },
        }
    }
}

/// Puts tables into the map, each under its number, and lists the numbers.
pub fn put_tables<T: Table>(sstables: &mut HashMap<usize, Arc<T>>, tables: Vec<Arc<T>>) -> (put: Vec<usize>)
    ensures
        final(sstables)@ == with_tables(old(sstables)@, tables@),
        put@ == ids(tables@),
{
    let mut put: Vec<usize> = Vec::with_capacity(tables.len());
    assert(tables@.take(0) =~= Seq::empty());
    for i in 0..tables.len()
        invariant
            sstables@ == with_tables(old(sstables)@, tables@.take(i as int)),
            put@ == ids(tables@.take(i as int)),
    {
        let table = tables[i].clone();
        let id: usize = table.sst_id();
        assert(tables@.take(i + 1).drop_last() =~= tables@.take(i as int));
        put.push(id);
        sstables.insert(id, table);
        assert(put@ =~= ids(tables@.take(i + 1)));
    }
    assert(tables@.take(tables.len() as int) =~= tables@);
    put
}

/// Takes the tables of the given numbers out of the map.
pub fn drop_tables<T>(sstables: &mut HashMap<usize, Arc<T>>, dropped: &Vec<usize>)
    ensures
        final(sstables)@ == without_tables(old(sstables)@, dropped@),
{
    assert(sstables@ =~= without_tables(old(sstables)@, dropped@.take(0)));
    for i in 0..dropped.len()
        invariant
            sstables@ == without_tables(old(sstables)@, dropped@.take(i as int)),
    {
        let id: usize = dropped[i];
        sstables.remove(&id);
        proof {
            let shorter = dropped@.take(i as int);
            let longer = dropped@.take(i + 1);
            assert(longer =~= shorter.push(id));
            assert forall|k: usize| longer.contains(k) <==> (shorter.contains(k) || k == id) by {
                if shorter.contains(k) {
                    let j = choose|j: int| 0 <= j < shorter.len() && shorter[j] == k;
                    assert(longer[j] == k);
                }
                if k == id {
                    assert(longer[i as int] == k);
                }
            }
            assert(sstables@ =~= without_tables(old(sstables)@, longer));
        }
    }
    assert(dropped@.take(dropped.len() as int) =~= dropped@);
}

/// Taking out one list and then another is taking out both.
pub proof fn without_both<T>(sstables: Map<usize, Arc<T>>, first: Seq<usize>, second: Seq<usize>)
    ensures
        without_tables(without_tables(sstables, first), second) == without_tables(sstables, first + second),
{
    let both = first + second;
    assert forall|k: usize| both.contains(k) <==> (first.contains(k) || second.contains(k)) by {
        if first.contains(k) {
            let j = choose|j: int| 0 <= j < first.len() && first[j] == k;
            assert(both[j] == k);
        }
        if second.contains(k) {
            let j = choose|j: int| 0 <= j < second.len() && second[j] == k;
            assert(both[first.len() + j] == k);
        }
    }
    assert(without_tables(without_tables(sstables, first), second) =~= without_tables(sstables, both));
}

impl<T: Table> StateView<T> {
    /// Where every table on the list is there, opening them does not miss any.
    pub proof fn known_tables_are_opened(self, ids: Seq<usize>)
        requires
            self.knows(ids),
        ensures
            !(self.open_each(ids) is Missing),
            !(self.open_in_turn(ids) is Missing),
        decreases ids.len(),
    {
        if ids.len() > 0 {
            let tail = ids.drop_first();
            assert forall|i: int| 0 <= i < tail.len() implies self.sstables.contains_key(#[trigger] tail[i]) by {
                assert(tail[i] == ids[i + 1]);
            }
            self.known_tables_are_opened(tail);
            assert(self.sstables.contains_key(ids[0]));
        }
    }

    proof fn known_tiers_are_opened(self, tiers: Seq<(usize, Vec<usize>)>)
        requires
            forall|i: int| 0 <= i < tiers.len() ==> self.knows((#[trigger] tiers[i]).1@),
        ensures
            !(self.open_tiers(tiers) is Missing),
        decreases tiers.len(),
    {
        if tiers.len() > 0 {
            let tail = tiers.drop_first();
            assert forall|i: int| 0 <= i < tail.len() implies self.knows((#[trigger] tail[i]).1@) by {
                assert(tail[i] == tiers[i + 1]);
            }
            self.known_tiers_are_opened(tail);
            self.known_tables_are_opened(tiers[0].1@);
        }
    }

    /// Where every table that a task reads is there, opening them does not miss any.
    pub proof fn known_tables_are_not_missed(self, task: &CompactionTask)
        requires
            self.knows_tables_of(task),
        ensures
            !(self.opening(task) is Missing),
    {
        match task {
            CompactionTask::ForceFullCompaction { l0_sstables, l1_sstables } => {
                self.knows_listed(task, l0_sstables@);
                self.knows_listed(task, l1_sstables@);
                self.known_tables_are_opened(l0_sstables@);
                self.known_tables_are_opened(l1_sstables@);
            },
            CompactionTask::Simple(t) => {
                self.knows_listed(task, t.upper_level_sst_ids@);
                self.knows_listed(task, t.lower_level_sst_ids@);
                self.known_tables_are_opened(t.upper_level_sst_ids@);
                self.known_tables_are_opened(t.lower_level_sst_ids@);
            },
            CompactionTask::Leveled(t) => {
                self.knows_listed(task, t.upper_level_sst_ids@);
                self.knows_listed(task, t.lower_level_sst_ids@);
                self.known_tables_are_opened(t.upper_level_sst_ids@);
                self.known_tables_are_opened(t.lower_level_sst_ids@);
            },
            CompactionTask::Tiered(t) => {
                assert forall|i: int| 0 <= i < t.tiers.len() implies self.knows((#[trigger] t.tiers@[i]).1@) by {
                    assert forall|id: usize| #[trigger] t.tiers[i].1@.contains(id) implies task.reads(id) by {}
                    self.knows_listed(task, t.tiers[i].1@);
                }
                self.known_tiers_are_opened(t.tiers@);
            },
        }
    }

    /// A list of numbers that the task reads is known where the tables of the task are.
    pub proof fn knows_listed(self, task: &CompactionTask, ids: Seq<usize>)
        requires
            self.knows_tables_of(task),
            forall|id: usize| #[trigger] ids.contains(id) ==> task.reads(id),
        ensures
            self.knows(ids),
    {
        assert forall|i: int| 0 <= i < ids.len() implies self.sstables.contains_key(#[trigger] ids[i]) by {
            assert(ids.contains(ids[i]));
        }
    }

    /// The tables of a task that reads two lists are known where both lists are.
    pub proof fn knows_two_lists(self, task: &CompactionTask, upper: Seq<usize>, lower: Seq<usize>)
        requires
            forall|id: usize| #[trigger] task.reads(id) <==> upper.contains(id) || lower.contains(id),
        ensures
            self.knows_tables_of(task) == (self.knows(upper) && self.knows(lower)),
    {
        if self.knows_tables_of(task) {
            self.knows_listed(task, upper);
            self.knows_listed(task, lower);
        }
    }
}

/// The settings of the storage.
pub struct LsmStorageOptions {
    /// The size that the blocks of a table are meant to have.
    pub block_size: usize,
    /// The size at which a compaction goes on to the next table.
    pub target_sst_size: usize,
    /// How many memtables may wait before the oldest is flushed.
    pub num_memtable_limit: usize,
    pub compaction_options: CompactionOptions,
}

/// The storage: its state, and what is needed to compact it.
pub struct LsmStorageInner<B: TableBuilder, L, R, S> {
    pub state: LsmStorageState<B::Table>,
    pub options: LsmStorageOptions,
    pub compaction_controller: CompactionController<L, R, S>,
    /// Which entries compactions give up.
    pub compaction_filters: Vec<CompactionFilter>,
    /// No reader looks at the state before this timestamp.
    pub watermark: u64,
    /// The number that the next table gets.
    pub next_sst_id: usize,
    /// Where finished tables are put.
    pub store: B::Store,
}

/// The number that comes after `id`. After the last one they start over.
pub open spec fn id_after(id: usize) -> usize {
    if id == usize::MAX {
        0
    } else {
        (id + 1) as usize
    }
}

/// The number that is reached from `id` after `n` tables.
pub open spec fn nth_id(id: usize, n: nat) -> usize
    decreases n,
{
    if n == 0 {
        id
    } else {
        id_after(nth_id(id, (n - 1) as nat))
    }
}

/// The prefixes that the filters name.
pub open spec fn prefixes(filters: Seq<CompactionFilter>) -> Seq<Seq<u8>> {
    filters.map_values(
        |filter: CompactionFilter|
            match filter {
                CompactionFilter::Prefix(prefix) => prefix@,
            },
    )
}

impl<B: TableBuilder, L, R, S> LsmStorageInner<B, L, R, S> {
    /// What decides about the entries of a compaction.
    pub open spec fn retention(&self, bottom: bool) -> RetentionRules {
        RetentionRules { bottom, watermark: self.watermark, prefixes: prefixes(self.compaction_filters@) }
    }

    /// The error that writing a table ends in, by how many were written before it and by its entries.
    pub open spec fn build_errors(&self) -> spec_fn(nat, Seq<Entry<KeyView>>) -> Option<Seq<char>> {
        |n: nat, entries: Seq<Entry<KeyView>>|
            B::build_error(self.options.block_size, entries, nth_id(self.next_sst_id, n), self.store)
    }

    /// The estimated size of a table, by its entries.
    pub open spec fn size_estimate(&self) -> spec_fn(Seq<Entry<KeyView>>) -> usize {
        |entries: Seq<Entry<KeyView>>| B::size_of(self.options.block_size, entries)
    }

    /// The two differ at most in the number that the next table gets.
    pub open spec fn same_but_next_id(&self, other: &Self) -> bool {
        &&& self.state == other.state
        &&& self.same_but_state_and_next_id(other)
    }

    /// The two differ at most in the state and in the number that the next table gets.
    pub open spec fn same_but_state_and_next_id(&self, other: &Self) -> bool {
        &&& self.options == other.options
        &&& self.compaction_controller == other.compaction_controller
        &&& self.compaction_filters == other.compaction_filters
        &&& self.watermark == other.watermark
        &&& self.store == other.store
    }

    /// Takes the number for a new table.
    pub fn next_sst_id(&mut self) -> (id: usize)
        ensures
            id == old(self).next_sst_id,
            final(self).next_sst_id == id_after(old(self).next_sst_id),
            final(self).same_but_next_id(old(self)),
    {
        let id: usize = self.next_sst_id;
        self.next_sst_id = id.wrapping_add(1);
        id
    }

    /// Whether the oldest waiting memtable is to be flushed.
    pub fn trigger_flush(&self) -> (due: bool)
        ensures
            due == (self.state@.imm_memtables.len() >= self.options.num_memtable_limit),
    {
        self.state.imm_memtables.len() >= self.options.num_memtable_limit
    }
}

} // verus!
