//! Which errors compactions end in, and what they leave behind.

use std::sync::Arc;

use vstd::prelude::*;

use crate::compact::run::CompactionOutcome;
use crate::compact::run::FullCompaction;
use crate::compact::CompactionTask;
use crate::compact::LeveledCompactionController;
use crate::compact::SimpleLeveledCompactionController;
use crate::compact::TieredCompactionController;
use crate::compaction_laws::number_after;
use crate::compaction_laws::only_numbers_drawn;
use crate::error::StorageError;
use crate::fault::concat_fault;
use crate::fault::merge_all_fault;
use crate::fault::merge_fault;
use crate::fault::opening_error;
use crate::fault::table_faults;
use crate::fault::tables_fault;
use crate::fault::Fault;
use crate::iterator_laws::first_to_matter;
use crate::iterator_laws::opening_stops_at_first_to_matter;
use crate::iterator_laws::reads_through;
use crate::iterators::StorageIterator;
use crate::key::KeyModel;
use crate::key::KeySlice;
use crate::key::KeyView;
use crate::lsm_storage::LsmStorageInner;
use crate::lsm_storage::LsmStorageState;
use crate::lsm_storage::Opening;
use crate::merge::merge_all;
use crate::merge::Entry;
use crate::retention::packed;
use crate::retention::packed_first;
use crate::retention::stopped;
use crate::retention::stopped_first;
use crate::retention::RetentionRules;
use crate::retention::Stop;
use crate::stop_laws::compaction_without_faults_succeeds;
use crate::stop_laws::failing_step_is_the_answer;
use crate::stop_laws::finished_stay;
use crate::stop_laws::sound_tables_are_read;
use crate::storage_laws::nth_id_counts_on;
use crate::strategy_laws::asked;
use crate::stream_laws::earlier_are_packed_alike;
use crate::table::contents;
use crate::table::Table;
use crate::table::TableBuilder;
use crate::task_laws::from_level;
use crate::task_laws::names;
use crate::task_laws::tasks_read_what_they_name;

verus! {

/// The table of this number is there.
pub open spec fn there<T>(state: LsmStorageState<T>, id: usize) -> bool {
    state.sstables@.contains_key(id)
}

/// The table of this number is there and can be opened.
pub open spec fn opens<T: Table>(state: LsmStorageState<T>, id: usize) -> bool {
    there(state, id) && state.sstables@[id].open_error() is None
}

/// Place `i` of a list, each table of which is looked up and opened before the next, is the first where
/// that does not go well.
pub open spec fn fails_at<T: Table>(state: LsmStorageState<T>, list: Seq<usize>, i: int) -> bool {
    &&& 0 <= i < list.len()
    &&& !opens(state, list[i])
    &&& forall|j: int| 0 <= j < i ==> opens(state, #[trigger] list[j])
}

/// Place `i` of a list, of which all are there and only those up to the first that has an entry are
/// opened, cannot be opened.
pub open spec fn level_fails_at<T: Table>(state: LsmStorageState<T>, list: Seq<usize>, i: int) -> bool {
    &&& 0 <= i < list.len()
    &&& state.sstables@[list[i]].open_error() is Some
    &&& forall|j: int|
        0 <= j < i ==> state.sstables@[#[trigger] list[j]].open_error() is None
            && state.sstables@[list[j]].entries().len() == 0
    &&& forall|j: int| 0 <= j < list.len() ==> there(state, #[trigger] list[j])
}

/// What comes of opening the list: one table after another, or as a level.
pub open spec fn list_opens<T: Table>(
    state: LsmStorageState<T>,
    list: Seq<usize>,
    level: bool,
    outcome: Opening,
) -> bool {
    match outcome {
        Opening::Done => if level {
            &&& forall|j: int| 0 <= j < list.len() ==> there(state, #[trigger] list[j])
            &&& forall|i: int| !#[trigger] level_fails_at(state, list, i)
        } else {
            forall|j: int| 0 <= j < list.len() ==> opens(state, #[trigger] list[j])
        },
        Opening::Missing => if level {
            exists|j: int| 0 <= j < list.len() && !there(state, #[trigger] list[j])
        } else {
            exists|i: int| #[trigger] fails_at(state, list, i) && !there(state, list[i])
        },
        Opening::Failed(error) => if level {
            exists|i: int| #[trigger]
                level_fails_at(state, list, i) && state.sstables@[list[i]].open_error() == Some(error)
        } else {
            exists|i: int| #[trigger]
                fails_at(state, list, i) && there(state, list[i]) && state.sstables@[list[i]].open_error() == Some(
                    error,
                )
        },
    }
}

/// What comes of opening one list and then, where that went well, another one as a level.
pub open spec fn lists_open<T: Table>(
    state: LsmStorageState<T>,
    upper: Seq<usize>,
    upper_is_level: bool,
    lower: Seq<usize>,
    outcome: Opening,
) -> bool {
    ||| list_opens(state, upper, upper_is_level, Opening::Done) && list_opens(state, lower, true, outcome)
    ||| !(outcome is Done) && list_opens(state, upper, upper_is_level, outcome)
}

/// What comes of opening tiers one after another, each as a level.
pub open spec fn tiers_open<T: Table>(
    state: LsmStorageState<T>,
    tiers: Seq<(usize, Vec<usize>)>,
    outcome: Opening,
) -> bool {
    if outcome is Done {
        forall|t: int| 0 <= t < tiers.len() ==> list_opens(state, (#[trigger] tiers[t]).1@, true, Opening::Done)
    } else {
        exists|t: int|
            0 <= t < tiers.len() && list_opens(state, (#[trigger] tiers[t]).1@, true, outcome) && forall|u: int|
                0 <= u < t ==> list_opens(state, (#[trigger] tiers[u]).1@, true, Opening::Done)
    }
}

/// What comes of opening the tables of a task, in their order.
pub open spec fn task_opens<T: Table>(state: LsmStorageState<T>, task: CompactionTask, outcome: Opening) -> bool {
    match task {
        CompactionTask::ForceFullCompaction { l0_sstables, l1_sstables } => lists_open(
            state,
            l0_sstables@,
            false,
            l1_sstables@,
            outcome,
        ),
        CompactionTask::Simple(t) => lists_open(
            state,
            t.upper_level_sst_ids@,
            from_level(t.upper_level),
            t.lower_level_sst_ids@,
            outcome,
        ),
        CompactionTask::Leveled(t) => lists_open(
            state,
            t.upper_level_sst_ids@,
            from_level(t.upper_level),
            t.lower_level_sst_ids@,
            outcome,
        ),
        CompactionTask::Tiered(t) => tiers_open(state, t.tiers@, outcome),
    }
}

proof fn open_each_is_list_opens<T: Table>(state: LsmStorageState<T>, list: Seq<usize>, outcome: Opening)
    requires
        list_opens(state, list, false, outcome),
    ensures
        state@.open_each(list) == outcome,
    decreases list.len(),
{
    if list.len() > 0 {
        let tail = list.drop_first();
        if outcome is Done {
            assert(opens(state, list[0]));
            assert forall|j: int| 0 <= j < tail.len() implies opens(state, #[trigger] tail[j]) by {
                assert(tail[j] == list[j + 1]);
            }
            open_each_is_list_opens(state, tail, outcome);
        } else {
            let i = if outcome is Missing {
                choose|i: int| #[trigger] fails_at(state, list, i) && !there(state, list[i])
            } else {
                choose|i: int| #[trigger]
                    fails_at(state, list, i) && there(state, list[i]) && state.sstables@[list[i]].open_error() == Some(
                        outcome->Failed_0,
                    )
            };
            assert(fails_at(state, list, i));
            if i > 0 {
                assert(opens(state, list[0]));
                assert(tail[i - 1] == list[i]);
                assert forall|j: int| 0 <= j < i - 1 implies opens(state, #[trigger] tail[j]) by {
                    assert(tail[j] == list[j + 1]);
                }
                assert(fails_at(state, tail, i - 1));
                open_each_is_list_opens(state, tail, outcome);
            }
        }
    }
}

proof fn open_in_turn_is_list_opens<T: Table>(state: LsmStorageState<T>, list: Seq<usize>, outcome: Opening)
    requires
        list_opens(state, list, true, outcome),
    ensures
        state@.open_in_turn(list) == outcome,
{
    let tables = state@.tables(list);
    match outcome {
        Opening::Missing => {
            let j = choose|j: int| 0 <= j < list.len() && !there(state, #[trigger] list[j]);
            assert(!state@.sstables.contains_key(list[j]));
        },
        Opening::Failed(error) => {
            let i = choose|i: int| #[trigger]
                level_fails_at(state, list, i) && state.sstables@[list[i]].open_error() == Some(error);
            assert(state@.knows(list)) by {
                assert forall|j: int| 0 <= j < list.len() implies state@.sstables.contains_key(#[trigger] list[j]) by {
                    assert(there(state, list[j]));
                }
            }
            assert forall|j: int| 0 <= j < i implies (#[trigger] tables[j]).open_error() is None
                && tables[j].entries().len() == 0 by {
                assert(state.sstables@[list[j]].open_error() is None);
            }
            assert(tables[i] == state.sstables@[list[i]]);
            assert(first_to_matter(tables, i));
            opening_stops_at_first_to_matter(tables, i);
        },
        Opening::Done => {
            assert(state@.knows(list)) by {
                assert forall|j: int| 0 <= j < list.len() implies state@.sstables.contains_key(#[trigger] list[j]) by {
                    assert(there(state, list[j]));
                }
            }
            if opening_error(tables) is Some {
                let i = first_error(tables);
                assert forall|j: int| 0 <= j < i implies state.sstables@[#[trigger] list[j]].open_error() is None
                    && state.sstables@[list[j]].entries().len() == 0 by {
                    assert(tables[j].open_error() is None);
                }
                assert(tables[i] == state.sstables@[list[i]]);
                assert(level_fails_at(state, list, i));
            }
        },
    }
}

proof fn first_error<T: Table>(tables: Seq<Arc<T>>) -> (i: int)
    requires
        opening_error(tables) is Some,
    ensures
        0 <= i < tables.len(),
        tables[i].open_error() == opening_error(tables),
        forall|j: int| 0 <= j < i ==> (#[trigger] tables[j]).open_error() is None && tables[j].entries().len() == 0,
    decreases tables.len(),
{
    if tables[0].open_error() is Some {
        0
    } else {
        let tail = tables.drop_first();
        let i = first_error(tail);
        assert(tables[i + 1] == tail[i]);
        assert forall|j: int| 0 <= j < i + 1 implies (#[trigger] tables[j]).open_error() is None
            && tables[j].entries().len() == 0 by {
            if j > 0 {
                assert(tables[j] == tail[j - 1]);
            }
        }
        i + 1
    }
}

proof fn some_outcome_of_each<T: Table>(state: LsmStorageState<T>, list: Seq<usize>)
    ensures
        list_opens(state, list, false, state@.open_each(list)),
    decreases list.len(),
{
    if list.len() > 0 && opens(state, list[0]) {
        let tail = list.drop_first();
        some_outcome_of_each(state, tail);
        let outcome = state@.open_each(tail);
        if outcome is Done {
            assert forall|j: int| 0 <= j < list.len() implies opens(state, #[trigger] list[j]) by {
                if j > 0 {
                    assert(tail[j - 1] == list[j]);
                }
            }
        } else {
            let i = if outcome is Missing {
                choose|i: int| #[trigger] fails_at(state, tail, i) && !there(state, tail[i])
            } else {
                choose|i: int| #[trigger]
                    fails_at(state, tail, i) && there(state, tail[i]) && state.sstables@[tail[i]].open_error() == Some(
                        outcome->Failed_0,
                    )
            };
            assert(fails_at(state, tail, i));
            assert(list[i + 1] == tail[i]);
            assert forall|j: int| 0 <= j < i + 1 implies opens(state, #[trigger] list[j]) by {
                if j > 0 {
                    assert(tail[j - 1] == list[j]);
                }
            }
            assert(fails_at(state, list, i + 1));
        }
    } else if list.len() > 0 {
        assert(fails_at(state, list, 0));
    }
}

proof fn some_outcome_in_turn<T: Table>(state: LsmStorageState<T>, list: Seq<usize>)
    ensures
        list_opens(state, list, true, state@.open_in_turn(list)),
{
    let tables = state@.tables(list);
    if state@.knows(list) {
        assert forall|j: int| 0 <= j < list.len() implies there(state, #[trigger] list[j]) by {
            assert(state@.sstables.contains_key(list[j]));
        }
        if opening_error(tables) is Some {
            let i = first_error(tables);
            assert forall|j: int| 0 <= j < i implies state.sstables@[#[trigger] list[j]].open_error() is None
                && state.sstables@[list[j]].entries().len() == 0 by {
                assert(tables[j].open_error() is None);
            }
            assert(tables[i] == state.sstables@[list[i]]);
            assert(level_fails_at(state, list, i));
        } else {
            assert forall|i: int| !#[trigger] level_fails_at(state, list, i) by {
                if level_fails_at(state, list, i) {
                    open_in_turn_is_list_opens(
                        state,
                        list,
                        Opening::Failed(state.sstables@[list[i]].open_error()->0),
                    );
                }
            }
        }
    } else {
        let j = choose|j: int| 0 <= j < list.len() && !state@.sstables.contains_key(#[trigger] list[j]);
        assert(!there(state, list[j]));
    }
}

pub proof fn open_list_is_list_opens<T: Table>(state: LsmStorageState<T>, list: Seq<usize>, level: bool, outcome: Opening)
    ensures
        list_opens(state, list, level, outcome) <==> outcome == if level {
            state@.open_in_turn(list)
        } else {
            state@.open_each(list)
        },
{
    some_outcome_of_each(state, list);
    some_outcome_in_turn(state, list);
    if list_opens(state, list, level, outcome) {
        if level {
            open_in_turn_is_list_opens(state, list, outcome);
        } else {
            open_each_is_list_opens(state, list, outcome);
        }
    }
}

proof fn open_tiers_is_tiers_open<T: Table>(
    state: LsmStorageState<T>,
    tiers: Seq<(usize, Vec<usize>)>,
    outcome: Opening,
)
    ensures
        tiers_open(state, tiers, outcome) <==> outcome == state@.open_tiers(tiers),
    decreases tiers.len(),
{
    if tiers.len() > 0 {
        let tail = tiers.drop_first();
        let first = state@.open_in_turn(tiers[0].1@);
        open_tiers_is_tiers_open(state, tail, outcome);
        open_list_is_list_opens(state, tiers[0].1@, true, outcome);
        open_list_is_list_opens(state, tiers[0].1@, true, Opening::Done);
        if tiers_open(state, tiers, outcome) {
            if outcome is Done {
                assert(list_opens(state, tiers[0].1@, true, Opening::Done));
                assert forall|t: int| 0 <= t < tail.len() implies list_opens(
                    state,
                    (#[trigger] tail[t]).1@,
                    true,
                    Opening::Done,
                ) by {
                    assert(tail[t] == tiers[t + 1]);
                }
            } else {
                let t = choose|t: int|
                    0 <= t < tiers.len() && list_opens(state, (#[trigger] tiers[t]).1@, true, outcome) && forall|u: int|
                        0 <= u < t ==> list_opens(state, (#[trigger] tiers[u]).1@, true, Opening::Done);
                if t > 0 {
                    assert(list_opens(state, tiers[0].1@, true, Opening::Done));
                    assert(tail[t - 1] == tiers[t]);
                    assert forall|u: int| 0 <= u < t - 1 implies list_opens(
                        state,
                        (#[trigger] tail[u]).1@,
                        true,
                        Opening::Done,
                    ) by {
                        assert(tail[u] == tiers[u + 1]);
                    }
                    assert(tiers_open(state, tail, outcome));
                }
            }
        }
        if outcome == state@.open_tiers(tiers) {
            if first is Done {
                if outcome is Done {
                    assert forall|t: int| 0 <= t < tiers.len() implies list_opens(
                        state,
                        (#[trigger] tiers[t]).1@,
                        true,
                        Opening::Done,
                    ) by {
                        if t > 0 {
                            assert(tail[t - 1] == tiers[t]);
                        }
                    }
                } else {
                    let t = choose|t: int|
                        0 <= t < tail.len() && list_opens(state, (#[trigger] tail[t]).1@, true, outcome) && forall|u: int|
                            0 <= u < t ==> list_opens(state, (#[trigger] tail[u]).1@, true, Opening::Done);
                    assert(tiers[t + 1] == tail[t]);
                    assert forall|u: int| 0 <= u < t + 1 implies list_opens(
                        state,
                        (#[trigger] tiers[u]).1@,
                        true,
                        Opening::Done,
                    ) by {
                        if u > 0 {
                            assert(tail[u - 1] == tiers[u]);
                        }
                    }
                    assert(tiers_open(state, tiers, outcome));
                }
            } else {
                assert(list_opens(state, tiers[0].1@, true, outcome));
                assert(tiers_open(state, tiers, outcome));
            }
        }
    }
}

/// The tables of a task are opened in its order: those of L0 one by one, each before the next is looked
/// up; those of a level or tier up to the first that has an entry, once all are looked up; and the upper
/// ones before the lower ones.
pub proof fn tables_are_opened_in_order<T: Table>(state: LsmStorageState<T>, task: CompactionTask, outcome: Opening)
    ensures
        task_opens(state, task, outcome) <==> outcome == state@.opening(&task),
{
    match task {
        CompactionTask::ForceFullCompaction { l0_sstables, l1_sstables } => {
            open_list_is_list_opens(state, l0_sstables@, false, outcome);
            open_list_is_list_opens(state, l0_sstables@, false, Opening::Done);
            open_list_is_list_opens(state, l1_sstables@, true, outcome);
        },
        CompactionTask::Simple(t) => {
            open_list_is_list_opens(state, t.upper_level_sst_ids@, from_level(t.upper_level), outcome);
            open_list_is_list_opens(state, t.upper_level_sst_ids@, from_level(t.upper_level), Opening::Done);
            open_list_is_list_opens(state, t.lower_level_sst_ids@, true, outcome);
        },
        CompactionTask::Leveled(t) => {
            open_list_is_list_opens(state, t.upper_level_sst_ids@, from_level(t.upper_level), outcome);
            open_list_is_list_opens(state, t.upper_level_sst_ids@, from_level(t.upper_level), Opening::Done);
            open_list_is_list_opens(state, t.lower_level_sst_ids@, true, outcome);
        },
        CompactionTask::Tiered(t) => {
            open_tiers_is_tiers_open(state, t.tiers@, outcome);
        },
    }
}

/// A missing table is met exactly where opening the tables of the task in order comes upon it.
pub proof fn missing_tables_are_met<T: 'static + Table>(state: LsmStorageState<T>, task: CompactionTask, missing: bool)
    requires
        call_ensures(LsmStorageState::<T>::misses_table_of, (&state, &task), missing),
    ensures
        missing <==> task_opens(state, task, Opening::Missing),
{
    tables_are_opened_in_order(state, task, Opening::Missing);
}

/// A task has all its tables exactly where every one that it names is there.
pub proof fn known_tables_are_found<T: 'static + Table>(state: LsmStorageState<T>, task: CompactionTask, yes: bool)
    requires
        call_ensures(LsmStorageState::<T>::has_tables_of, (&state, &task), yes),
    ensures
        yes <==> forall|id: usize| #[trigger] names(task, id) ==> there(state, id),
{
    if yes {
        assert forall|id: usize| #[trigger] names(task, id) implies there(state, id) by {
            tasks_read_what_they_name(task, id);
            assert(task.reads(id));
        }
    }
    if forall|id: usize| #[trigger] names(task, id) ==> there(state, id) {
        assert forall|id: usize| #[trigger] task.reads(id) implies state@.sstables.contains_key(id) by {
            tasks_read_what_they_name(task, id);
        }
    }
}

/// A compaction can be run unless a missing table is met.
pub proof fn tasks_without_missing_tables_are_accepted<B: TableBuilder, L, R, S>(
    inner: &mut LsmStorageInner<B, L, R, S>,
    task: CompactionTask,
)
    requires
        !task_opens(inner.state, task, Opening::Missing),
    ensures
        call_requires(LsmStorageInner::<B, L, R, S>::compact, (inner, &task)),
{
    tables_are_opened_in_order(inner.state, task, Opening::Missing);
}

/// Where a table of the task cannot be opened, the error of the first one is the answer, no number is
/// drawn, and nothing changes.
pub proof fn first_opening_error_is_the_answer<B: TableBuilder, L, R, S>(
    inner: &mut LsmStorageInner<B, L, R, S>,
    task: CompactionTask,
    error: Seq<char>,
    result: Result<Vec<Arc<B::Table>>, StorageError>,
)
    requires
        call_ensures(LsmStorageInner::<B, L, R, S>::compact, (inner, &task), result),
        task_opens(inner.state, task, Opening::Failed(error)),
    ensures
        result matches Err(e) && e@ == error,
        only_numbers_drawn(*old(inner), *final(inner)),
        final(inner).next_sst_id == old(inner).next_sst_id,
{
    tables_are_opened_in_order(inner.state, task, Opening::Failed(error));
}

/// The error is one that opening or reading the table ends in.
pub open spec fn error_of<T: Table>(table: T, error: Seq<char>) -> bool {
    ||| table.open_error() == Some(error)
    ||| table.fault() is Some && table.fault()->0.error == error
}

proof fn merge_fault_is_from_a_side<K: KeyModel>(
    a: Seq<Entry<K>>,
    fa: Option<Fault>,
    b: Seq<Entry<K>>,
    fb: Option<Fault>,
)
    ensures
        merge_fault(a, fa, b, fb) matches Some(f) ==> (fa is Some && fa->0.error == f.error) || (fb is Some
            && fb->0.error == f.error),
    decreases a.len() + b.len(),
{
    let sa = crate::fault::stepped(fa);
    let sb = crate::fault::stepped(fb);
    if a.len() > 0 {
        merge_fault_is_from_a_side(a.drop_first(), sa, b, fb);
    }
    if b.len() > 0 {
        merge_fault_is_from_a_side(a, fa, b.drop_first(), sb);
    }
    if a.len() > 0 && b.len() > 0 {
        merge_fault_is_from_a_side(a.drop_first(), sa, b.drop_first(), sb);
    }
}

proof fn merge_all_fault_is_from_a_part<K: KeyModel>(parts: Seq<Seq<Entry<K>>>, faults: Seq<Option<Fault>>)
    requires
        faults.len() == parts.len(),
    ensures
        merge_all_fault(parts, faults) matches Some(f) ==> exists|i: int|
            0 <= i < faults.len() && (#[trigger] faults[i]) is Some && faults[i]->0.error == f.error,
    decreases parts.len(),
{
    if parts.len() > 0 {
        let tail = faults.drop_first();
        merge_all_fault_is_from_a_part(parts.drop_first(), tail);
        merge_fault_is_from_a_side(
            parts[0],
            faults[0],
            merge_all(parts.drop_first()),
            merge_all_fault(parts.drop_first(), tail),
        );
        if let Some(f) = merge_all_fault(parts, faults) {
            if faults[0] is Some && faults[0]->0.error == f.error {
            } else {
                let i = choose|i: int|
                    0 <= i < tail.len() && (#[trigger] tail[i]) is Some && tail[i]->0.error == f.error;
                assert(faults[i + 1] == tail[i]);
            }
        }
    }
}

proof fn concat_fault_is_from_a_table<T: Table>(
    entries: Seq<Entry<KeyView>>,
    fault: Option<Fault>,
    tables: Seq<Arc<T>>,
)
    ensures
        concat_fault(entries, fault, tables) matches Some(f) ==> (fault is Some && fault->0.error == f.error)
            || exists|i: int| 0 <= i < tables.len() && error_of(*#[trigger] tables[i], f.error),
    decreases tables.len(), entries.len(),
{
    if entries.len() == 0 {
        if tables.len() > 0 {
            let tail = tables.drop_first();
            concat_fault_is_from_a_table(tables[0].entries(), tables[0].fault(), tail);
            if let Some(f) = concat_fault(entries, fault, tables) {
                if tables[0].fault() is Some && tables[0].fault()->0.error == f.error {
                    assert(error_of(*tables[0], f.error));
                } else {
                    let i = choose|i: int| 0 <= i < tail.len() && error_of(*#[trigger] tail[i], f.error);
                    assert(tables[i + 1] == tail[i]);
                }
            }
        }
    } else {
        concat_fault_is_from_a_table(entries.drop_first(), crate::fault::stepped(fault), tables);
        if opening_error(tables) is Some {
            let i = first_error(tables);
            assert(error_of(*tables[i], opening_error(tables)->0));
        }
    }
}

/// The error is one that opening or reading a table which the task names ends in.
pub open spec fn error_of_named<T: Table>(state: LsmStorageState<T>, task: CompactionTask, error: Seq<char>) -> bool {
    exists|id: usize| #[trigger] names(task, id) && error_of(*state.sstables@[id], error)
}

proof fn list_error_is_named<T: Table>(
    state: LsmStorageState<T>,
    task: CompactionTask,
    list: Seq<usize>,
    error: Seq<char>,
)
    requires
        forall|k: int| 0 <= k < list.len() ==> names(task, #[trigger] list[k]),
        exists|i: int| 0 <= i < list.len() && error_of(*#[trigger] state@.tables(list)[i], error),
    ensures
        error_of_named(state, task, error),
{
    let i = choose|i: int| 0 <= i < list.len() && error_of(*#[trigger] state@.tables(list)[i], error);
    assert(state@.tables(list)[i] == state.sstables@[list[i]]);
    assert(names(task, list[i]));
}

proof fn level_fault_is_named<T: Table>(state: LsmStorageState<T>, task: CompactionTask, list: Seq<usize>)
    requires
        forall|k: int| 0 <= k < list.len() ==> names(task, #[trigger] list[k]),
    ensures
        tables_fault(state@.tables(list)) matches Some(f) ==> error_of_named(state, task, f.error),
{
    let tables = state@.tables(list);
    concat_fault_is_from_a_table(Seq::empty(), None, tables);
    if let Some(f) = tables_fault(tables) {
        let i = choose|i: int| 0 <= i < tables.len() && error_of(*#[trigger] tables[i], f.error);
        list_error_is_named(state, task, list, f.error);
    }
}

proof fn tables_fault_is_named<T: Table>(state: LsmStorageState<T>, task: CompactionTask, list: Seq<usize>)
    requires
        forall|k: int| 0 <= k < list.len() ==> names(task, #[trigger] list[k]),
    ensures
        merge_all_fault(contents(state@.tables(list)), table_faults(state@.tables(list))) matches Some(f)
            ==> error_of_named(state, task, f.error),
{
    let tables = state@.tables(list);
    let faults = table_faults(tables);
    merge_all_fault_is_from_a_part(contents(tables), faults);
    if let Some(f) = merge_all_fault(contents(tables), faults) {
        let i = choose|i: int| 0 <= i < faults.len() && (#[trigger] faults[i]) is Some && faults[i]->0.error == f.error;
        assert(error_of(*tables[i], f.error));
        list_error_is_named(state, task, list, f.error);
    }
}

proof fn two_lists_fault_is_named<T: Table>(
    state: LsmStorageState<T>,
    task: CompactionTask,
    upper: Seq<usize>,
    lower: Seq<usize>,
)
    requires
        forall|k: int| 0 <= k < upper.len() ==> names(task, #[trigger] upper[k]),
        forall|k: int| 0 <= k < lower.len() ==> names(task, #[trigger] lower[k]),
    ensures
        state@.l0_over_fault(upper, lower) matches Some(f) ==> error_of_named(state, task, f.error),
        state@.level_over_fault(upper, lower) matches Some(f) ==> error_of_named(state, task, f.error),
{
    let u = state@.tables(upper);
    let l = state@.tables(lower);
    tables_fault_is_named(state, task, upper);
    level_fault_is_named(state, task, upper);
    level_fault_is_named(state, task, lower);
    merge_fault_is_from_a_side(
        merge_all(contents(u)),
        merge_all_fault(contents(u), table_faults(u)),
        contents(l).flatten(),
        tables_fault(l),
    );
    merge_fault_is_from_a_side(contents(u).flatten(), tables_fault(u), contents(l).flatten(), tables_fault(l));
}

proof fn compaction_fault_is_named<T: Table>(state: LsmStorageState<T>, task: CompactionTask)
    ensures
        state@.compaction_fault(&task) matches Some(f) ==> error_of_named(state, task, f.error),
{
    match task {
        CompactionTask::ForceFullCompaction { l0_sstables, l1_sstables } => {
            assert forall|k: int| 0 <= k < l0_sstables@.len() implies names(task, #[trigger] l0_sstables@[k]) by {}
            assert forall|k: int| 0 <= k < l1_sstables@.len() implies names(task, #[trigger] l1_sstables@[k]) by {}
            two_lists_fault_is_named(state, task, l0_sstables@, l1_sstables@);
        },
        CompactionTask::Simple(t) => {
            let upper = t.upper_level_sst_ids@;
            let lower = t.lower_level_sst_ids@;
            assert forall|k: int| 0 <= k < upper.len() implies names(task, #[trigger] upper[k]) by {}
            assert forall|k: int| 0 <= k < lower.len() implies names(task, #[trigger] lower[k]) by {}
            two_lists_fault_is_named(state, task, upper, lower);
        },
        CompactionTask::Leveled(t) => {
            let upper = t.upper_level_sst_ids@;
            let lower = t.lower_level_sst_ids@;
            assert forall|k: int| 0 <= k < upper.len() implies names(task, #[trigger] upper[k]) by {}
            assert forall|k: int| 0 <= k < lower.len() implies names(task, #[trigger] lower[k]) by {}
            two_lists_fault_is_named(state, task, upper, lower);
        },
        CompactionTask::Tiered(t) => {
            let parts = state@.tier_contents(t.tiers@);
            let faults = state@.tier_faults(t.tiers@);
            merge_all_fault_is_from_a_part(parts, faults);
            if let Some(f) = state@.compaction_fault(&task) {
                let i = choose|i: int|
                    0 <= i < faults.len() && (#[trigger] faults[i]) is Some && faults[i]->0.error == f.error;
                let list = t.tiers@[i].1@;
                assert forall|k: int| 0 <= k < list.len() implies names(task, #[trigger] list[k]) by {
                    assert(t.tiers@[i].1@.contains(list[k]));
                }
                level_fault_is_named(state, task, list);
            }
        },
    }
}

/// The error is one that putting some table into the store ends in.
pub open spec fn error_of_store<B: TableBuilder>(block_size: usize, store: B::Store, error: Seq<char>) -> bool {
    exists|entries: Seq<Entry<KeyView>>, id: usize| #[trigger]
        B::build_error(block_size, entries, id, store) == Some(error)
}

proof fn stop_is_from_input_or_build(
    s: Seq<Entry<KeyView>>,
    n: int,
    rules: RetentionRules,
    target: usize,
    size: spec_fn(Seq<Entry<KeyView>>) -> usize,
    fault: Option<Fault>,
    build_error: spec_fn(nat, Seq<Entry<KeyView>>) -> Option<Seq<char>>,
)
    ensures
        stopped_first(s, n, rules, target, size, fault, build_error) matches Some(stop) ==> {
            ||| fault is Some && fault->0.error == stop.error
            ||| exists|i: nat, entries: Seq<Entry<KeyView>>| #[trigger] build_error(i, entries) == Some(stop.error)
        },
    decreases n,
{
    if n > 0 {
        stop_is_from_input_or_build(s, n - 1, rules, target, size, fault, build_error);
    }
}

/// A compaction whose tables could be opened fails only with an error of reading one of them or of putting
/// a table into the store.
pub proof fn errors_come_from_tables_or_store<B: TableBuilder, L, R, S>(
    inner: &mut LsmStorageInner<B, L, R, S>,
    task: CompactionTask,
    error: StorageError,
)
    requires
        call_ensures(
            LsmStorageInner::<B, L, R, S>::compact,
            (inner, &task),
            Err::<Vec<Arc<B::Table>>, StorageError>(error),
        ),
        task_opens(inner.state, task, Opening::Done),
    ensures
        error_of_named(old(inner).state, task, error@) || error_of_store::<B>(
            old(inner).options.block_size,
            old(inner).store,
            error@,
        ),
        only_numbers_drawn(*old(inner), *final(inner)),
{
    let before = *inner;
    let state = before.state;
    tables_are_opened_in_order(state, task, Opening::Done);
    compaction_fault_is_named(state, task);
    stop_comes_from(before, state@.compaction_input(&task), state@.compaction_fault(&task), task.reaches_bottom());
}

proof fn stop_comes_from<B: TableBuilder, L, R, S>(
    inner: LsmStorageInner<B, L, R, S>,
    input: Seq<Entry<KeyView>>,
    fault: Option<Fault>,
    bottom: bool,
)
    ensures
        inner.stops(input, fault, bottom) matches Some(stop) ==> (fault is Some && fault->0.error == stop.error)
            || error_of_store::<B>(inner.options.block_size, inner.store, stop.error),
{
    let rules = inner.retention(bottom);
    let target = inner.options.target_sst_size;
    let size = inner.size_estimate();
    let build_error = inner.build_errors();
    stop_is_from_input_or_build(input, input.len() as int, rules, target, size, fault, build_error);
    if let Some(stop) = inner.stops(input, fault, bottom) {
        if !(fault is Some && fault->0.error == stop.error) {
            let (i, entries) = choose|i: nat, entries: Seq<Entry<KeyView>>| #[trigger]
                build_error(i, entries) == Some(stop.error);
            let (finished, filling) = packed_first(input, input.len() as int, rules, target, size);
            if build_error(i, entries) == Some(stop.error) {
                assert(B::build_error(
                    inner.options.block_size,
                    entries,
                    crate::lsm_storage::nth_id(inner.next_sst_id, i),
                    inner.store,
                ) == Some(stop.error));
            } else {
                assert(build_error(finished.len(), filling) == Some(stop.error));
            }
        }
    }
}

/// The store takes any table.
pub open spec fn store_takes_all<B: TableBuilder>(block_size: usize, store: B::Store) -> bool {
    forall|entries: Seq<Entry<KeyView>>, id: usize| #[trigger]
        B::build_error(block_size, entries, id, store) is None
}

/// A compaction succeeds where every table that its task names is there and can be read to its end, and
/// the store takes the tables.
pub proof fn compactions_of_sound_tables_succeed<B: TableBuilder, L, R, S>(
    inner: &mut LsmStorageInner<B, L, R, S>,
    task: CompactionTask,
    result: Result<Vec<Arc<B::Table>>, StorageError>,
)
    requires
        call_ensures(LsmStorageInner::<B, L, R, S>::compact, (inner, &task), result),
        forall|id: usize| #[trigger]
            names(task, id) ==> there(inner.state, id) && reads_through(*inner.state.sstables@[id]),
        store_takes_all::<B>(inner.options.block_size, inner.store),
    ensures
        result is Ok,
{
    let before = *inner;
    let state = before.state;
    assert forall|id: usize| #[trigger] task.reads(id) implies state@.sstables.contains_key(id)
        && crate::stop_laws::sound(*state@.sstables[id]) by {
        tasks_read_what_they_name(task, id);
    }
    sound_tables_are_read(state@, &task);
    compaction_without_faults_succeeds(
        state@.compaction_input(&task),
        before.retention(task.reaches_bottom()),
        before.options.target_sst_size,
        before.size_estimate(),
        None,
        before.build_errors(),
    );
}

/// A stream that can be read to its end is compacted, where the store takes the tables.
pub proof fn sound_streams_are_compacted<
    B: TableBuilder,
    L,
    R,
    S,
    I: for<'a> StorageIterator<Model = KeyView, KeyType<'a> = KeySlice<'a>>,
>(
    inner: &mut LsmStorageInner<B, L, R, S>,
    iter: I,
    bottom: bool,
    result: Result<Vec<Arc<B::Table>>, StorageError>,
)
    requires
        call_ensures(
            LsmStorageInner::<B, L, R, S>::compact_generate_sst_from_iter::<I>,
            (inner, iter, bottom),
            result,
        ),
        iter.fault() matches Some(f) ==> f.after >= iter.entries().len(),
        store_takes_all::<B>(inner.options.block_size, inner.store),
    ensures
        result is Ok,
{
    let before = *inner;
    compaction_without_faults_succeeds(
        iter.entries(),
        before.retention(bottom),
        before.options.target_sst_size,
        before.size_estimate(),
        iter.fault(),
        before.build_errors(),
    );
}

pub proof fn prefixes_are_packed_alike(
    s: Seq<Entry<KeyView>>,
    k: int,
    n: int,
    rules: RetentionRules,
    target: usize,
    size: spec_fn(Seq<Entry<KeyView>>) -> usize,
)
    requires
        0 <= n <= k <= s.len(),
    ensures
        packed_first(s.take(k), n, rules, target, size) == packed_first(s.take(n), n, rules, target, size),
    decreases k,
{
    if n < k {
        prefixes_are_packed_alike(s, k - 1, n, rules, target, size);
        assert(s.take(k) =~= s.take(k - 1).push(s[k - 1]));
        earlier_are_packed_alike(s.take(k - 1), s[k - 1], n, rules, target, size);
    }
}

/// A stream that breaks off ends the compaction with its error, where the store takes the tables. Numbers
/// are drawn for the tables that were finished by then: all but the last of those that the entries up to
/// there make.
pub proof fn failing_streams_end_compactions<
    B: TableBuilder,
    L,
    R,
    S,
    I: for<'a> StorageIterator<Model = KeyView, KeyType<'a> = KeySlice<'a>>,
>(
    inner: &mut LsmStorageInner<B, L, R, S>,
    iter: I,
    bottom: bool,
    fault: Fault,
    result: Result<Vec<Arc<B::Table>>, StorageError>,
)
    requires
        call_ensures(
            LsmStorageInner::<B, L, R, S>::compact_generate_sst_from_iter::<I>,
            (inner, iter, bottom),
            result,
        ),
        iter.fault() == Some(fault),
        fault.after < iter.entries().len() <= usize::MAX,
        store_takes_all::<B>(inner.options.block_size, inner.store),
    ensures
        result matches Err(e) && e@ == fault.error,
        only_numbers_drawn(*old(inner), *final(inner)),
        final(inner).next_sst_id == number_after(
            old(inner).next_sst_id,
            packed(
                iter.entries().take(fault.after as int + 1),
                old(inner).retention(bottom),
                old(inner).options.target_sst_size,
                old(inner).size_estimate(),
            ).len() - 1,
        ),
{
    let before = *inner;
    let s = iter.entries();
    let n = fault.after as int + 1;
    let rules = before.retention(bottom);
    let target = before.options.target_sst_size;
    let size = before.size_estimate();
    failing_step_is_the_answer(s, rules, target, size, fault, before.build_errors());
    prefixes_are_packed_alike(s, s.len() as int, n, rules, target, size);
    assert(s.take(s.len() as int) =~= s);
    let drawn = packed_first(s, n, rules, target, size).0.len();
    no_more_finished_than_entries(s, n, rules, target, size);
    nth_id_counts_on(before.next_sst_id, drawn);
}

proof fn no_more_finished_than_entries(
    s: Seq<Entry<KeyView>>,
    n: int,
    rules: RetentionRules,
    target: usize,
    size: spec_fn(Seq<Entry<KeyView>>) -> usize,
)
    requires
        0 <= n,
    ensures
        packed_first(s, n, rules, target, size).0.len() <= n,
    decreases n,
{
    if n > 0 {
        no_more_finished_than_entries(s, n - 1, rules, target, size);
    }
}

/// A table that cannot be put into the store ends the compaction with its error, where the tables before
/// it could. Numbers are drawn up to that of this table.
pub proof fn failing_builds_end_compactions(
    s: Seq<Entry<KeyView>>,
    rules: RetentionRules,
    target: usize,
    size: spec_fn(Seq<Entry<KeyView>>) -> usize,
    build_error: spec_fn(nat, Seq<Entry<KeyView>>) -> Option<Seq<char>>,
    t: int,
)
    requires
        0 <= t < packed(s, rules, target, size).len(),
        forall|i: int|
            0 <= i < t ==> build_error(i as nat, #[trigger] packed(s, rules, target, size)[i]) is None,
        build_error(t as nat, packed(s, rules, target, size)[t]) is Some,
    ensures
        stopped(s, rules, target, size, None, build_error) == Some(
            Stop {
                error: build_error(t as nat, packed(s, rules, target, size)[t])->0,
                drawn: (t + 1) as nat,
            },
        ),
{
    let n = s.len() as int;
    failing_build_first(s, n, rules, target, size, build_error, t);
    let (finished, filling) = packed_first(s, n, rules, target, size);
    assert(packed(s, rules, target, size) == finished.push(filling));
}

proof fn failing_build_first(
    s: Seq<Entry<KeyView>>,
    n: int,
    rules: RetentionRules,
    target: usize,
    size: spec_fn(Seq<Entry<KeyView>>) -> usize,
    build_error: spec_fn(nat, Seq<Entry<KeyView>>) -> Option<Seq<char>>,
    t: int,
)
    requires
        0 <= n <= s.len(),
        0 <= t < packed(s, rules, target, size).len(),
        forall|i: int|
            0 <= i < t ==> build_error(i as nat, #[trigger] packed(s, rules, target, size)[i]) is None,
        build_error(t as nat, packed(s, rules, target, size)[t]) is Some,
    ensures
        stopped_first(s, n, rules, target, size, None, build_error) == if packed_first(
            s,
            n,
            rules,
            target,
            size,
        ).0.len() <= t {
            None
        } else {
            Some(
                Stop {
                    error: build_error(t as nat, packed(s, rules, target, size)[t])->0,
                    drawn: (t + 1) as nat,
                },
            )
        },
    decreases n,
{
    if n > 0 {
        failing_build_first(s, n - 1, rules, target, size, build_error, t);
        let before = packed_first(s, n - 1, rules, target, size).0;
        let now = packed_first(s, n, rules, target, size).0;
        let (all, last) = packed_first(s, s.len() as int, rules, target, size);
        finished_stay(s, n, s.len() as int, rules, target, size);
        finished_stay(s, n - 1, n, rules, target, size);
        if now.len() > before.len() {
            let i = before.len() as int;
            assert(now[i] == all[i]);
            assert(packed(s, rules, target, size)[i] == all[i]);
        }
    }
}

/// A compaction that is looked for fails only where the strategy asks for one, and then with the error of
/// the first table that cannot be opened, or with one of reading a table or of the store. The state stays
/// as it is.
pub proof fn failed_triggers_leave_the_state<B: TableBuilder, L, R, S>(
    inner: &mut LsmStorageInner<B, L, R, S>,
    error: StorageError,
) where
    L: LeveledCompactionController<B::Table>,
    R: TieredCompactionController<B::Table>,
    S: SimpleLeveledCompactionController<B::Table>,

    requires
        call_ensures(
            LsmStorageInner::<B, L, R, S>::trigger_compaction,
            (inner,),
            Err::<CompactionOutcome<B::Table>, StorageError>(error),
        ),
    ensures
        only_numbers_drawn(*old(inner), *final(inner)),
        exists|task: CompactionTask| #[trigger]
            asked(old(inner).compaction_controller, old(inner).state, Some(task)) && {
                ||| task_opens(old(inner).state, task, Opening::Failed(error@)) && final(inner).next_sst_id == old(
                    inner,
                ).next_sst_id
                ||| task_opens(old(inner).state, task, Opening::Done) && (error_of_named(
                    old(inner).state,
                    task,
                    error@,
                ) || error_of_store::<B>(old(inner).options.block_size, old(inner).store, error@))
            },
{
    let before = *inner;
    let state = before.state;
    let next = final(inner).next_sst_id;
    let generated = choose|generated: Option<CompactionTask>| #[trigger]
        before.compaction_controller.generates(&before.state, generated) && (generated matches Some(task)
            && failed_with(before, task, error, next));
    let task = generated->0;
    crate::strategy_laws::generated_is_asked(before.compaction_controller, state, generated);
    tables_are_opened_in_order(state, task, Opening::Failed(error@));
    tables_are_opened_in_order(state, task, Opening::Done);
    compaction_fault_is_named(state, task);
    stop_comes_from(before, state@.compaction_input(&task), state@.compaction_fault(&task), task.reaches_bottom());
    assert(asked(before.compaction_controller, state, Some(task)));
}

/// How the contract of `trigger_compaction` has it that the task fails.
spec fn failed_with<B: TableBuilder, L, R, S>(
    inner: LsmStorageInner<B, L, R, S>,
    task: CompactionTask,
    error: StorageError,
    next_sst_id: usize,
) -> bool {
    let stop = inner.stops(
        inner.state@.compaction_input(&task),
        inner.state@.compaction_fault(&task),
        task.reaches_bottom(),
    );
    ||| inner.state@.opening(&task) == Opening::Failed(error@) && next_sst_id == inner.next_sst_id
    ||| inner.state@.opening(&task) is Done && stop is Some && error@ == stop->0.error
}

/// A full compaction that fails leaves the state as it is.
pub proof fn failed_full_compactions_leave_the_state<B: TableBuilder, L, R, S>(
    inner: &mut LsmStorageInner<B, L, R, S>,
    error: StorageError,
)
    requires
        call_ensures(
            LsmStorageInner::<B, L, R, S>::force_full_compaction,
            (inner,),
            Err::<FullCompaction, StorageError>(error),
        ),
    ensures
        only_numbers_drawn(*old(inner), *final(inner)),
{
}

/// Tables that are opened one by one start at their first entries; the error of the first that cannot be
/// opened is the answer.
pub proof fn tables_are_opened_one_by_one<T: 'static + Table>(
    state: LsmStorageState<T>,
    list: Vec<usize>,
    result: Result<Vec<Box<T::Iter>>, StorageError>,
)
    requires
        call_ensures(LsmStorageState::<T>::open_tables, (&state, &list), result),
        !list_opens(state, list@, false, Opening::Missing),
    ensures
        forall|i: int| #[trigger]
            fails_at(state, list@, i) ==> (result matches Err(e) && Some(e@) == state.sstables@[list@[i]].open_error()),
        list_opens(state, list@, false, Opening::Done) ==> (result matches Ok(iters) && iters@.len() == list@.len()
            && forall|i: int|
            0 <= i < list@.len() ==> (#[trigger] iters@[i]).inv() && iters@[i].entries()
                == state.sstables@[list@[i]].entries() && iters@[i].fault() == state.sstables@[list@[i]].fault()),
{
    open_list_is_list_opens(state, list@, false, Opening::Missing);
    open_list_is_list_opens(state, list@, false, Opening::Done);
    assert forall|i: int| #[trigger] fails_at(state, list@, i) implies (result matches Err(e) && Some(e@)
        == state.sstables@[list@[i]].open_error()) by {
        if !there(state, list@[i]) {
            assert(list_opens(state, list@, false, Opening::Missing));
        } else {
            let error = state.sstables@[list@[i]].open_error()->0;
            assert(list_opens(state, list@, false, Opening::Failed(error)));
            open_list_is_list_opens(state, list@, false, Opening::Failed(error));
        }
    }
    if list_opens(state, list@, false, Opening::Done) {
        let iters = result->Ok_0;
        let tables = state@.tables(list@);
        let parts = crate::iterators::merge_iterator::parts_of(iters@);
        let faults = crate::iterators::merge_iterator::faults_of(iters@);
        assert(parts.len() == contents(tables).len());
        assert forall|i: int| 0 <= i < list@.len() implies (#[trigger] iters@[i]).inv() && iters@[i].entries()
            == state.sstables@[list@[i]].entries() && iters@[i].fault() == state.sstables@[list@[i]].fault() by {
            assert(iters[i].inv());
            assert(parts[i] == contents(tables)[i]);
            assert(faults[i] == table_faults(tables)[i]);
        }
    }
}

proof fn failing_build_with_fault(
    s: Seq<Entry<KeyView>>,
    n: int,
    rules: RetentionRules,
    target: usize,
    size: spec_fn(Seq<Entry<KeyView>>) -> usize,
    fault: Fault,
    build_error: spec_fn(nat, Seq<Entry<KeyView>>) -> Option<Seq<char>>,
    t: int,
)
    requires
        0 <= n <= fault.after + 1,
        fault.after < s.len(),
        0 <= t < packed(s, rules, target, size).len(),
        forall|i: int|
            0 <= i < t ==> build_error(i as nat, #[trigger] packed(s, rules, target, size)[i]) is None,
        build_error(t as nat, packed(s, rules, target, size)[t]) is Some,
    ensures
        stopped_first(s, n, rules, target, size, Some(fault), build_error) == if packed_first(
            s,
            n,
            rules,
            target,
            size,
        ).0.len() > t {
            Some(
                Stop {
                    error: build_error(t as nat, packed(s, rules, target, size)[t])->0,
                    drawn: (t + 1) as nat,
                },
            )
        } else if n == fault.after + 1 {
            Some(Stop { error: fault.error, drawn: packed_first(s, n, rules, target, size).0.len() })
        } else {
            None
        },
    decreases n,
{
    if n > 0 {
        failing_build_with_fault(s, n - 1, rules, target, size, fault, build_error, t);
        let before = packed_first(s, n - 1, rules, target, size).0;
        let now = packed_first(s, n, rules, target, size).0;
        let (all, last) = packed_first(s, s.len() as int, rules, target, size);
        finished_stay(s, n, s.len() as int, rules, target, size);
        finished_stay(s, n - 1, n, rules, target, size);
        if now.len() > before.len() {
            let i = before.len() as int;
            assert(now[i] == all[i]);
            assert(packed(s, rules, target, size)[i] == all[i]);
        }
    }
}

/// Where the input breaks off and a table cannot be put into the store, what comes first ends the
/// compaction: the table, where it is finished before the failing step; and else that step.
pub proof fn first_failure_ends_compactions(
    s: Seq<Entry<KeyView>>,
    rules: RetentionRules,
    target: usize,
    size: spec_fn(Seq<Entry<KeyView>>) -> usize,
    fault: Fault,
    build_error: spec_fn(nat, Seq<Entry<KeyView>>) -> Option<Seq<char>>,
    t: int,
)
    requires
        fault.after < s.len(),
        0 <= t < packed(s, rules, target, size).len(),
        forall|i: int|
            0 <= i < t ==> build_error(i as nat, #[trigger] packed(s, rules, target, size)[i]) is None,
        build_error(t as nat, packed(s, rules, target, size)[t]) is Some,
    ensures
        ({
            let finished = packed(s.take(fault.after as int + 1), rules, target, size).len() - 1;
            stopped(s, rules, target, size, Some(fault), build_error) == if finished > t {
                Some(
                    Stop {
                        error: build_error(t as nat, packed(s, rules, target, size)[t])->0,
                        drawn: (t + 1) as nat,
                    },
                )
            } else {
                Some(Stop { error: fault.error, drawn: finished as nat })
            }
        }),
{
    let n = fault.after as int + 1;
    failing_build_with_fault(s, n, rules, target, size, fault, build_error, t);
    crate::retention::stop_stays(s, n, s.len() as int, rules, target, size, Some(fault), build_error);
    prefixes_are_packed_alike(s, s.len() as int, n, rules, target, size);
    assert(s.take(s.len() as int) =~= s);
}

/// A compaction of a stream ends as `stopped` says, with the errors of the store for the numbers next in
/// turn.
pub proof fn compactions_end_with_the_first_failure<
    B: TableBuilder,
    L,
    R,
    S,
    I: for<'a> StorageIterator<Model = KeyView, KeyType<'a> = KeySlice<'a>>,
>(
    inner: &mut LsmStorageInner<B, L, R, S>,
    iter: I,
    bottom: bool,
    error: StorageError,
    build_error: spec_fn(nat, Seq<Entry<KeyView>>) -> Option<Seq<char>>,
)
    requires
        call_ensures(
            LsmStorageInner::<B, L, R, S>::compact_generate_sst_from_iter::<I>,
            (inner, iter, bottom),
            Err::<Vec<Arc<B::Table>>, StorageError>(error),
        ),
        iter.entries().len() < usize::MAX,
        forall|n: nat, entries: Seq<Entry<KeyView>>|
            n <= usize::MAX ==> #[trigger] build_error(n, entries) == B::build_error(
                inner.options.block_size,
                entries,
                number_after(inner.next_sst_id, n as int) as usize,
                inner.store,
            ),
    ensures
        ({
            let stop = stopped(
                iter.entries(),
                old(inner).retention(bottom),
                old(inner).options.target_sst_size,
                old(inner).size_estimate(),
                iter.fault(),
                build_error,
            );
            stop is Some && stop->0.error == error@ && final(inner).next_sst_id == number_after(
                old(inner).next_sst_id,
                stop->0.drawn as int,
            )
        }),
        only_numbers_drawn(*old(inner), *final(inner)),
{
    let before = *inner;
    let s = iter.entries();
    let rules = before.retention(bottom);
    let target = before.options.target_sst_size;
    let size = before.size_estimate();
    let own = before.build_errors();
    assert forall|n: nat, entries: Seq<Entry<KeyView>>| n <= usize::MAX implies #[trigger] build_error(n, entries)
        == own(n, entries) by {
        nth_id_counts_on(before.next_sst_id, n);
    }
    stops_alike(s, s.len() as int, rules, target, size, iter.fault(), build_error, own);
    no_more_finished_than_entries(s, s.len() as int, rules, target, size);
    let stop = stopped(s, rules, target, size, iter.fault(), own);
    crate::stop_laws::stop_draws_no_more_than_tables(s, rules, target, size, iter.fault(), own);
    nth_id_counts_on(before.next_sst_id, stop->0.drawn);
}

proof fn stops_alike(
    s: Seq<Entry<KeyView>>,
    n: int,
    rules: RetentionRules,
    target: usize,
    size: spec_fn(Seq<Entry<KeyView>>) -> usize,
    fault: Option<Fault>,
    first: spec_fn(nat, Seq<Entry<KeyView>>) -> Option<Seq<char>>,
    second: spec_fn(nat, Seq<Entry<KeyView>>) -> Option<Seq<char>>,
)
    requires
        0 <= n <= s.len() < usize::MAX,
        forall|i: nat, entries: Seq<Entry<KeyView>>|
            i <= usize::MAX ==> #[trigger] first(i, entries) == second(i, entries),
    ensures
        stopped_first(s, n, rules, target, size, fault, first) == stopped_first(
            s,
            n,
            rules,
            target,
            size,
            fault,
            second,
        ),
    decreases n,
{
    if n > 0 {
        stops_alike(s, n - 1, rules, target, size, fault, first, second);
        no_more_finished_than_entries(s, n - 1, rules, target, size);
        let (finished, filling) = packed_first(s, n - 1, rules, target, size);
        assert(first(finished.len(), filling) == second(finished.len(), filling));
    }
}

} // verus!
