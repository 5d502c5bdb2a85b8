//! Compaction: which tables are compacted, and how the strategies take part in it.

pub mod leveled;
pub mod run;
pub mod simple_leveled;
pub mod tiered;

pub use leveled::LeveledCompactionController;
pub use leveled::LeveledCompactionOptions;
pub use leveled::LeveledCompactionTask;
pub use simple_leveled::SimpleLeveledCompactionController;
pub use simple_leveled::SimpleLeveledCompactionOptions;
pub use simple_leveled::SimpleLeveledCompactionTask;
pub use tiered::TieredCompactionController;
pub use tiered::TieredCompactionOptions;
pub use tiered::TieredCompactionTask;

use vstd::prelude::*;

use crate::lsm_storage::LsmStorageState;

verus! {

/// The tables that a compaction reads.
#[derive(Debug)]
pub enum CompactionTask {
    Leveled(LeveledCompactionTask),
    Tiered(TieredCompactionTask),
    Simple(SimpleLeveledCompactionTask),
    ForceFullCompaction { l0_sstables: Vec<usize>, l1_sstables: Vec<usize> },
}

impl CompactionTask {
    /// Nothing lies below the level that the task writes to.
    pub open spec fn reaches_bottom(&self) -> bool {
        match self {
            CompactionTask::ForceFullCompaction { .. } => true,
            CompactionTask::Leveled(task) => task.is_lower_level_bottom_level,
            CompactionTask::Simple(task) => task.is_lower_level_bottom_level,
            CompactionTask::Tiered(task) => task.bottom_tier_included,
        }
    }

    /// The task reads the table of this number.
    pub open spec fn reads(&self, id: usize) -> bool {
        match self {
            CompactionTask::ForceFullCompaction { l0_sstables, l1_sstables } => l0_sstables@.contains(id)
                || l1_sstables@.contains(id),
            CompactionTask::Leveled(task) => task.upper_level_sst_ids@.contains(id)
                || task.lower_level_sst_ids@.contains(id),
            CompactionTask::Simple(task) => task.upper_level_sst_ids@.contains(id)
                || task.lower_level_sst_ids@.contains(id),
            CompactionTask::Tiered(task) => exists|i: int|
                0 <= i < task.tiers.len() && (#[trigger] task.tiers[i]).1@.contains(id),
        }
    }

    /// Whether nothing lies below the level that the task writes to.
    pub fn compact_to_bottom_level(&self) -> (bottom: bool)
        ensures
            bottom == self.reaches_bottom(),
    {
        match self {
            CompactionTask::ForceFullCompaction { .. } => true,
            CompactionTask::Leveled(task) => task.is_lower_level_bottom_level,
            CompactionTask::Simple(task) => task.is_lower_level_bottom_level,
            CompactionTask::Tiered(task) => task.bottom_tier_included,
        }
    }
}

/// The compaction strategy in use.
pub enum CompactionController<L, R, S> {
    Leveled(L),
    Tiered(R),
    Simple(S),
    NoCompaction,
}

impl<L, R, S> CompactionController<L, R, S> {
    /// `task` is what the strategy in use may ask for, given `snapshot`. Without a strategy there is
    /// nothing to ask.
    pub open spec fn generates<T>(&self, snapshot: &LsmStorageState<T>, task: Option<CompactionTask>) -> bool where
        L: LeveledCompactionController<T>,
        R: TieredCompactionController<T>,
        S: SimpleLeveledCompactionController<T>,
     {
        match self {
            CompactionController::Leveled(ctrl) => exists|t: Option<LeveledCompactionTask>| #[trigger]
                call_ensures(L::generate_compaction_task, (ctrl, snapshot), t) && task == (match t {
                    Some(t) => Some(CompactionTask::Leveled(t)),
                    None => None,
                }),
            CompactionController::Simple(ctrl) => exists|t: Option<SimpleLeveledCompactionTask>| #[trigger]
                call_ensures(S::generate_compaction_task, (ctrl, snapshot), t) && task == (match t {
                    Some(t) => Some(CompactionTask::Simple(t)),
                    None => None,
                }),
            CompactionController::Tiered(ctrl) => exists|t: Option<TieredCompactionTask>| #[trigger]
                call_ensures(R::generate_compaction_task, (ctrl, snapshot), t) && task == (match t {
                    Some(t) => Some(CompactionTask::Tiered(t)),
                    None => None,
                }),
            CompactionController::NoCompaction => false,
        }
    }

    /// The task is one of the strategy in use.
    pub open spec fn handles(&self, task: &CompactionTask) -> bool {
        match (self, task) {
            (CompactionController::Leveled(_), CompactionTask::Leveled(_)) => true,
            (CompactionController::Simple(_), CompactionTask::Simple(_)) => true,
            (CompactionController::Tiered(_), CompactionTask::Tiered(_)) => true,
            _ => false,
        }
    }

    /// `state` is what the strategy in use may make of `snapshot` after the task, and `removed` the
    /// tables that it gives up. Only leveled compaction is told whether a recovery is under way.
    pub open spec fn applies<T>(
        &self,
        snapshot: &LsmStorageState<T>,
        task: &CompactionTask,
        output: &[usize],
        in_recovery: bool,
        state: LsmStorageState<T>,
        removed: Vec<usize>,
    ) -> bool where
        L: LeveledCompactionController<T>,
        R: TieredCompactionController<T>,
        S: SimpleLeveledCompactionController<T>,
     {
        match (self, task) {
            (CompactionController::Leveled(ctrl), CompactionTask::Leveled(task)) => call_ensures(
                L::apply_compaction_result,
                (ctrl, snapshot, task, output, in_recovery),
                (state, removed),
            ),
            (CompactionController::Simple(ctrl), CompactionTask::Simple(task)) => call_ensures(
                S::apply_compaction_result,
                (ctrl, snapshot, task, output),
                (state, removed),
            ),
            (CompactionController::Tiered(ctrl), CompactionTask::Tiered(task)) => call_ensures(
                R::apply_compaction_result,
                (ctrl, snapshot, task, output),
                (state, removed),
            ),
            _ => false,
        }
    }

    /// Asks the strategy in use for the next compaction.
    pub fn generate_compaction_task<T>(&self, snapshot: &LsmStorageState<T>) -> (task: Option<CompactionTask>) where
        L: LeveledCompactionController<T>,
        R: TieredCompactionController<T>,
        S: SimpleLeveledCompactionController<T>,

        requires
            !(self is NoCompaction),
        ensures
            self.generates(snapshot, task),
            task matches Some(task) ==> self.handles(&task),
    {
        match self {
            CompactionController::Leveled(ctrl) => match ctrl.generate_compaction_task(snapshot) {
                Some(task) => Some(CompactionTask::Leveled(task)),
                None => None,
            },
            CompactionController::Simple(ctrl) => match ctrl.generate_compaction_task(snapshot) {
                Some(task) => Some(CompactionTask::Simple(task)),
                None => None,
            },
            CompactionController::Tiered(ctrl) => match ctrl.generate_compaction_task(snapshot) {
                Some(task) => Some(CompactionTask::Tiered(task)),
                None => None,
            },
            CompactionController::NoCompaction => None,
        }
    }

    /// Lets the strategy in use work out the state after a compaction that wrote the tables in
    /// `output`, and the tables to remove.
    pub fn apply_compaction_result<T>(
        &self,
        snapshot: &LsmStorageState<T>,
        task: &CompactionTask,
        output: &[usize],
        in_recovery: bool,
    ) -> (result: (LsmStorageState<T>, Vec<usize>)) where
        L: LeveledCompactionController<T>,
        R: TieredCompactionController<T>,
        S: SimpleLeveledCompactionController<T>,

        requires
            self.handles(task),
        ensures
            self.applies(snapshot, task, output, in_recovery, result.0, result.1),
    {
        match (self, task) {
            (CompactionController::Leveled(ctrl), CompactionTask::Leveled(task)) => {
                ctrl.apply_compaction_result(snapshot, task, output, in_recovery)
            },
            (CompactionController::Simple(ctrl), CompactionTask::Simple(task)) => {
                ctrl.apply_compaction_result(snapshot, task, output)
            },
            (CompactionController::Tiered(ctrl), CompactionTask::Tiered(task)) => {
                ctrl.apply_compaction_result(snapshot, task, output)
            },
            _ => vstd::pervasive::unreached(),
        }
    }

    /// Whether memtables are flushed to L0. Tiered compaction has no L0.
    pub fn flush_to_l0(&self) -> (l0: bool)
        ensures
            l0 == !(self is Tiered),
    {
        matches!(self, Self::Leveled(_) | Self::Simple(_) | Self::NoCompaction)
    }
}

/// How the storage is to be compacted.
#[derive(Debug, Clone, Copy)]
pub enum CompactionOptions {
    /// Leveled compaction with partial compaction + dynamic level support (= RocksDB's Leveled
    /// Compaction)
    Leveled(LeveledCompactionOptions),
    /// Tiered compaction (= RocksDB's universal compaction)
    Tiered(TieredCompactionOptions),
    /// Simple leveled compaction
    Simple(SimpleLeveledCompactionOptions),
    /// No compaction, always flush to L0
    NoCompaction,
}

impl CompactionOptions {
    /// Whether compactions run in the background.
    pub fn compacts_in_background(&self) -> (yes: bool)
        ensures
            yes == !(self is NoCompaction),
    {
        matches!(self, CompactionOptions::Leveled(_) | CompactionOptions::Simple(_) | CompactionOptions::Tiered(_))
    }
}

/// What the manifest is told.
#[derive(Debug)]
pub enum ManifestRecord {
    /// A compaction, and the tables that it wrote.
    Compaction(CompactionTask, Vec<usize>),
}

/// Which entries a compaction gives up.
#[derive(Debug)]
pub enum CompactionFilter {
    /// Those whose user key starts with these bytes.
    Prefix(Vec<u8>),
}

} // verus!
