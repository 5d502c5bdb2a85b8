//! Which calls are accepted.

use std::sync::Arc;

use vstd::prelude::*;

use crate::compact::CompactionTask;
use crate::compact::LeveledCompactionController;
use crate::compact::SimpleLeveledCompactionController;
use crate::compact::TieredCompactionController;
use crate::failure_laws::list_opens;
use crate::failure_laws::lists_open;
use crate::failure_laws::there;
use crate::iterators::merge_iterator::MergeIterator;
use crate::iterators::two_merge_iterator::TwoMergeIterator;
use crate::iterators::StorageIterator;
use crate::key::KeySlice;
use crate::key::KeyView;
use crate::lsm_storage::LsmStorageInner;
use crate::lsm_storage::LsmStorageState;
use crate::lsm_storage::Opening;
use crate::table::Table;
use crate::table::TableBuilder;

verus! {

/// Any two iterators that are sound can be merged, and what comes of it can be moved.
pub proof fn iterators_can_be_merged<
    A: 'static + StorageIterator,
    B: 'static + for<'a> StorageIterator<Model = A::Model, KeyType<'a> = A::KeyType<'a>>,
>(a: A, b: B, iters: Vec<Box<A>>)
    requires
        a.inv(),
        b.inv(),
        forall|i: int| 0 <= i < iters@.len() ==> (#[trigger] iters@[i]).inv(),
    ensures
        call_requires(TwoMergeIterator::<A, B>::create, (a, b)),
        call_requires(MergeIterator::<A>::create, (iters,)),
{
    assert(forall|i: int| 0 <= i < iters.len() ==> (#[trigger] iters[i]).inv()) by {
        assert forall|i: int| 0 <= i < iters.len() implies (#[trigger] iters[i]).inv() by {
            assert(iters@[i].inv());
        }
    }
}

/// Any sound stream can be compacted.
pub proof fn streams_can_be_compacted<
    B: TableBuilder,
    L,
    R,
    S,
    I: for<'a> StorageIterator<Model = KeyView, KeyType<'a> = KeySlice<'a>>,
>(inner: &mut LsmStorageInner<B, L, R, S>, iter: I, bottom: bool)
    requires
        iter.inv(),
    ensures
        call_requires(
            LsmStorageInner::<B, L, R, S>::compact_generate_sst_from_iter::<I>,
            (inner, iter, bottom),
        ),
{
}

/// A storage that has a first level can be compacted in full, unless a missing table is met.
pub proof fn storages_can_be_compacted_in_full<B: TableBuilder, L, R, S>(inner: &mut LsmStorageInner<B, L, R, S>)
    requires
        inner.state.levels@.len() > 0,
        !lists_open(inner.state, inner.state.l0_sstables@, false, inner.state.levels@[0].1@, Opening::Missing),
    ensures
        call_requires(LsmStorageInner::<B, L, R, S>::force_full_compaction, (inner,)),
{
    let state = inner.state;
    assert(state@.levels[0] == (state.levels@[0].0, state.levels@[0].1@));
    crate::failure_laws::open_list_is_list_opens(state, state.l0_sstables@, false, Opening::Missing);
    crate::failure_laws::open_list_is_list_opens(state, state.l0_sstables@, false, Opening::Done);
    crate::failure_laws::open_list_is_list_opens(state, state.levels@[0].1@, true, Opening::Missing);
}

/// Under any strategy a compaction can be looked for, and the tables of a task of its own can be
/// concluded.
pub proof fn strategies_can_be_triggered<B: TableBuilder, L, R, S>(
    inner: &mut LsmStorageInner<B, L, R, S>,
    current: LsmStorageState<B::Table>,
    task: CompactionTask,
    tables: Vec<Arc<B::Table>>,
) where
    L: LeveledCompactionController<B::Table>,
    R: TieredCompactionController<B::Table>,
    S: SimpleLeveledCompactionController<B::Table>,

    requires
        !(inner.compaction_controller is NoCompaction),
    ensures
        call_requires(LsmStorageInner::<B, L, R, S>::trigger_compaction, (inner,)),
        (old(inner).compaction_controller is Leveled && task is Leveled) || (old(inner).compaction_controller is Simple
            && task is Simple) || (old(inner).compaction_controller is Tiered && task is Tiered) ==> call_requires(
            LsmStorageInner::<B, L, R, S>::finish_compaction,
            (&*old(inner), current, task, tables),
        ),
{
}

/// Tables that are there can be looked up, tables can be opened up to the first that cannot, and the
/// tables of a full compaction can be put into any state that has a first level.
pub proof fn states_can_be_used<T: 'static + Table>(
    state: &mut LsmStorageState<T>,
    list: Vec<usize>,
    tables: Vec<Arc<T>>,
)
    ensures
        (forall|i: int| 0 <= i < list@.len() ==> there(*old(state), #[trigger] list@[i])) ==> call_requires(
            LsmStorageState::<T>::get_tables,
            (&*old(state), &list),
        ),
        !list_opens(*old(state), list@, false, Opening::Missing) ==> call_requires(
            LsmStorageState::<T>::open_tables,
            (&*old(state), &list),
        ),
        old(state).levels@.len() > 0 ==> call_requires(
            LsmStorageState::<T>::install_full_compaction,
            (state, tables),
        ),
{
    let before = *state;
    crate::failure_laws::open_list_is_list_opens(before, list@, false, Opening::Missing);
    if forall|i: int| 0 <= i < list@.len() ==> there(before, #[trigger] list@[i]) {
        assert forall|i: int| 0 <= i < list@.len() implies before@.sstables.contains_key(#[trigger] list@[i]) by {
            assert(there(before, list@[i]));
        }
    }
}

} // verus!
