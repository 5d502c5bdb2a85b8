//! Simple leveled compaction.

use vstd::prelude::*;

use crate::lsm_storage::LsmStorageState;

verus! {

/// A compaction of one level into the next one.
#[derive(Debug)]
pub struct SimpleLeveledCompactionTask {
    /// The level compacted from; `None` for the tables of L0.
    pub upper_level: Option<usize>,
    pub upper_level_sst_ids: Vec<usize>,
    pub lower_level: usize,
    pub lower_level_sst_ids: Vec<usize>,
    pub is_lower_level_bottom_level: bool,
}

#[derive(Debug, Clone, Copy)]
pub struct SimpleLeveledCompactionOptions {
    pub size_ratio_percent: usize,
    pub level0_file_num_compaction_trigger: usize,
    pub max_levels: usize,
}

/// Decides what simple leveled compaction does next, and what becomes of the state.
pub trait SimpleLeveledCompactionController<T>: Sized {
    /// The next compaction, if one is due.
    fn generate_compaction_task(&self, snapshot: &LsmStorageState<T>) -> Option<SimpleLeveledCompactionTask>;

    /// The state after a compaction that wrote the tables in `output`, and the tables to remove.
    fn apply_compaction_result(
        &self,
        snapshot: &LsmStorageState<T>,
        task: &SimpleLeveledCompactionTask,
        output: &[usize],
    ) -> (LsmStorageState<T>, Vec<usize>);
}

} // verus!
