//! Tiered compaction.

use vstd::prelude::*;

use crate::lsm_storage::LsmStorageState;

verus! {

/// A compaction of several tiers into one.
#[derive(Debug)]
pub struct TieredCompactionTask {
    /// The tiers, newest first: the number of each and its tables.
    pub tiers: Vec<(usize, Vec<usize>)>,
    pub bottom_tier_included: bool,
}

#[derive(Debug, Clone, Copy)]
pub struct TieredCompactionOptions {
    pub num_tiers: usize,
    pub max_size_amplification_percent: usize,
    pub size_ratio: usize,
    pub min_merge_width: usize,
    pub max_merge_width: Option<usize>,
}

/// Decides what tiered compaction does next, and what becomes of the state.
pub trait TieredCompactionController<T>: Sized {
    /// The next compaction, if one is due.
    fn generate_compaction_task(&self, snapshot: &LsmStorageState<T>) -> Option<TieredCompactionTask>;

    /// The state after a compaction that wrote the tables in `output`, and the tables to remove.
    fn apply_compaction_result(
        &self,
        snapshot: &LsmStorageState<T>,
        task: &TieredCompactionTask,
        output: &[usize],
    ) -> (LsmStorageState<T>, Vec<usize>);
}

} // verus!
