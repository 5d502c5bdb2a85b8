//! What strategies are asked and told, and what becomes of the state.

use std::collections::HashMap;
use std::sync::Arc;

use vstd::prelude::*;

use crate::compact::run::CompactionOutcome;
use crate::compact::run::FullCompaction;
use crate::compact::CompactionController;
use crate::compact::CompactionOptions;
use crate::compact::CompactionTask;
use crate::compact::LeveledCompactionController;
use crate::compact::LeveledCompactionTask;
use crate::compact::ManifestRecord;
use crate::compact::SimpleLeveledCompactionController;
use crate::compact::SimpleLeveledCompactionTask;
use crate::compact::TieredCompactionController;
use crate::compact::TieredCompactionTask;
use crate::compaction_laws::compaction_of_sorted_input_writes;
use crate::compaction_laws::concatenated;
use crate::compaction_laws::number_after;
use crate::compaction_laws::only_numbers_drawn;
use crate::compaction_laws::stays;
use crate::compaction_laws::writes;
use crate::error::StorageError;
use crate::key::KeyView;
use crate::lsm_storage::drop_tables;
use crate::lsm_storage::put_tables;
use crate::lsm_storage::with_tables;
use crate::lsm_storage::without_tables;
use crate::lsm_storage::LsmStorageInner;
use crate::lsm_storage::LsmStorageState;
use crate::merge::Entry;
use crate::storage_laws::nth_id_counts_on;
use crate::table::ids;
use crate::table::Table;
use crate::table::TableBuilder;
use crate::task_laws::compaction_input_is_what_the_task_names;
use crate::task_laws::held;
use crate::task_laws::held_at;
use crate::task_laws::level_in_order;
use crate::task_laws::names;
use crate::task_laws::task_entries;
use crate::task_laws::task_in_order;
use crate::task_laws::tables_in_order;
use crate::task_laws::writes_bottom;

verus! {

/// The strategy in use, asked about the state, may ask for the compaction given, or for none.
pub open spec fn asked<T, L, R, S>(
    controller: CompactionController<L, R, S>,
    state: LsmStorageState<T>,
    task: Option<CompactionTask>,
) -> bool where
    L: LeveledCompactionController<T>,
    R: TieredCompactionController<T>,
    S: SimpleLeveledCompactionController<T>,
 {
    match controller {
        CompactionController::Leveled(c) => match task {
            Some(CompactionTask::Leveled(t)) => call_ensures(L::generate_compaction_task, (&c, &state), Some(t)),
            None => call_ensures(L::generate_compaction_task, (&c, &state), None),
            _ => false,
        },
        CompactionController::Simple(c) => match task {
            Some(CompactionTask::Simple(t)) => call_ensures(S::generate_compaction_task, (&c, &state), Some(t)),
            None => call_ensures(S::generate_compaction_task, (&c, &state), None),
            _ => false,
        },
        CompactionController::Tiered(c) => match task {
            Some(CompactionTask::Tiered(t)) => call_ensures(R::generate_compaction_task, (&c, &state), Some(t)),
            None => call_ensures(R::generate_compaction_task, (&c, &state), None),
            _ => false,
        },
        CompactionController::NoCompaction => false,
    }
}

/// The strategy in use, told that the task has written the listed tables, may answer with this state and
/// these tables to remove. Leveled compaction is told as well whether a recovery is under way.
pub open spec fn told<T, L, R, S>(
    controller: CompactionController<L, R, S>,
    state: LsmStorageState<T>,
    task: CompactionTask,
    listed: &[usize],
    recovery: bool,
    applied: LsmStorageState<T>,
    removed: Vec<usize>,
) -> bool where
    L: LeveledCompactionController<T>,
    R: TieredCompactionController<T>,
    S: SimpleLeveledCompactionController<T>,
 {
    match controller {
        CompactionController::Leveled(c) => task matches CompactionTask::Leveled(t) && call_ensures(
            L::apply_compaction_result,
            (&c, &state, &t, listed, recovery),
            (applied, removed),
        ),
        CompactionController::Simple(c) => task matches CompactionTask::Simple(t) && call_ensures(
            S::apply_compaction_result,
            (&c, &state, &t, listed),
            (applied, removed),
        ),
        CompactionController::Tiered(c) => task matches CompactionTask::Tiered(t) && call_ensures(
            R::apply_compaction_result,
            (&c, &state, &t, listed),
            (applied, removed),
        ),
        CompactionController::NoCompaction => false,
    }
}

/// The strategy in use is asked for a task, and its answer is handed on.
pub proof fn strategies_are_asked<T, L, R, S>(
    controller: CompactionController<L, R, S>,
    state: LsmStorageState<T>,
    task: Option<CompactionTask>,
) where
    L: LeveledCompactionController<T>,
    R: TieredCompactionController<T>,
    S: SimpleLeveledCompactionController<T>,

    requires
        call_ensures(CompactionController::<L, R, S>::generate_compaction_task::<T>, (&controller, &state), task),
    ensures
        asked(controller, state, task),
{
    generated_is_asked(controller, state, task);
}

pub proof fn generated_is_asked<T, L, R, S>(
    controller: CompactionController<L, R, S>,
    state: LsmStorageState<T>,
    task: Option<CompactionTask>,
) where
    L: LeveledCompactionController<T>,
    R: TieredCompactionController<T>,
    S: SimpleLeveledCompactionController<T>,

    requires
        controller.generates(&state, task),
    ensures
        asked(controller, state, task),
{
    match controller {
        CompactionController::Leveled(c) => {
            let t = choose|t: Option<LeveledCompactionTask>| #[trigger]
                call_ensures(L::generate_compaction_task, (&c, &state), t) && task == (match t {
                    Some(t) => Some(CompactionTask::Leveled(t)),
                    None => None,
                });
            assert(call_ensures(L::generate_compaction_task, (&c, &state), t));
        },
        CompactionController::Simple(c) => {
            let t = choose|t: Option<SimpleLeveledCompactionTask>| #[trigger]
                call_ensures(S::generate_compaction_task, (&c, &state), t) && task == (match t {
                    Some(t) => Some(CompactionTask::Simple(t)),
                    None => None,
                });
            assert(call_ensures(S::generate_compaction_task, (&c, &state), t));
        },
        CompactionController::Tiered(c) => {
            let t = choose|t: Option<TieredCompactionTask>| #[trigger]
                call_ensures(R::generate_compaction_task, (&c, &state), t) && task == (match t {
                    Some(t) => Some(CompactionTask::Tiered(t)),
                    None => None,
                });
            assert(call_ensures(R::generate_compaction_task, (&c, &state), t));
        },
        CompactionController::NoCompaction => {},
    }
}

/// The strategy in use is told the result of its task as it is, and its answer is handed on.
pub proof fn strategies_are_told<T, L, R, S>(
    controller: CompactionController<L, R, S>,
    state: LsmStorageState<T>,
    task: CompactionTask,
    listed: &[usize],
    recovery: bool,
    applied: LsmStorageState<T>,
    removed: Vec<usize>,
) where
    L: LeveledCompactionController<T>,
    R: TieredCompactionController<T>,
    S: SimpleLeveledCompactionController<T>,

    requires
        call_ensures(
            CompactionController::<L, R, S>::apply_compaction_result::<T>,
            (&controller, &state, &task, listed, recovery),
            (applied, removed),
        ),
    ensures
        told(controller, state, task, listed, recovery, applied, removed),
{
}

/// Every strategy can be asked, and can be told the result of a task of its own.
pub proof fn strategies_can_be_asked_and_told<T, L, R, S>(
    controller: CompactionController<L, R, S>,
    state: LsmStorageState<T>,
    task: CompactionTask,
    listed: &[usize],
    recovery: bool,
) where
    L: LeveledCompactionController<T>,
    R: TieredCompactionController<T>,
    S: SimpleLeveledCompactionController<T>,

    ensures
        !(controller is NoCompaction) ==> call_requires(
            CompactionController::<L, R, S>::generate_compaction_task::<T>,
            (&controller, &state),
        ),
        (controller is Leveled && task is Leveled) || (controller is Simple && task is Simple) || (controller is Tiered
            && task is Tiered) ==> call_requires(
            CompactionController::<L, R, S>::apply_compaction_result::<T>,
            (&controller, &state, &task, listed, recovery),
        ),
{
}

/// The numbers of the tables, in their order.
pub open spec fn numbers<T: Table>(tables: Seq<Arc<T>>) -> Seq<usize> {
    Seq::new(tables.len(), |i: int| tables[i].id())
}

/// The two list the same memtables and tables.
pub open spec fn same_lists<T, U>(a: LsmStorageState<T>, b: LsmStorageState<U>) -> bool {
    &&& a.imm_memtables@ == b.imm_memtables@
    &&& a.l0_sstables@ == b.l0_sstables@
    &&& a.levels@.len() == b.levels@.len()
    &&& forall|l: int|
        0 <= l < a.levels@.len() ==> (#[trigger] a.levels@[l]).0 == b.levels@[l].0 && a.levels@[l].1@
            == b.levels@[l].1@
}

/// Table `i` is the last one of its number.
pub open spec fn last_of_number<T: Table>(tables: Seq<Arc<T>>, i: int) -> bool {
    0 <= i < tables.len() && forall|j: int| i < j < tables.len() ==> (#[trigger] tables[j]).id() != tables[i].id()
}

/// `after` is `before` with the tables put in, each under its number.
pub open spec fn put_in<T: Table>(
    before: Map<usize, Arc<T>>,
    tables: Seq<Arc<T>>,
    after: Map<usize, Arc<T>>,
) -> bool {
    &&& forall|i: int| #[trigger]
        last_of_number(tables, i) ==> after.contains_key(tables[i].id()) && after[tables[i].id()] == tables[i]
    &&& forall|id: usize|
        !numbers(tables).contains(id) ==> (#[trigger] after.contains_key(id) <==> before.contains_key(id))
    &&& forall|id: usize|
        !numbers(tables).contains(id) && before.contains_key(id) ==> #[trigger] after[id] == before[id]
}

/// `after` is `before` without the tables of these numbers.
pub open spec fn taken_out<T>(before: Map<usize, Arc<T>>, removed: Seq<usize>, after: Map<usize, Arc<T>>) -> bool {
    &&& forall|id: usize| #[trigger]
        after.contains_key(id) <==> before.contains_key(id) && !removed.contains(id)
    &&& forall|id: usize| after.contains_key(id) ==> #[trigger] after[id] == before[id]
}

proof fn with_tables_puts_in<T: Table>(before: Map<usize, Arc<T>>, tables: Seq<Arc<T>>)
    ensures
        put_in(before, tables, with_tables(before, tables)),
    decreases tables.len(),
{
    let after = with_tables(before, tables);
    if tables.len() > 0 {
        let shorter = tables.drop_last();
        let last = tables.last();
        with_tables_puts_in(before, shorter);
        assert(numbers(tables)[tables.len() - 1] == last.id());
        assert forall|i: int| #[trigger] last_of_number(tables, i) implies after.contains_key(tables[i].id())
            && after[tables[i].id()] == tables[i] by {
            if i < shorter.len() {
                assert(tables[tables.len() - 1].id() != tables[i].id());
                assert forall|j: int| i < j < shorter.len() implies (#[trigger] shorter[j]).id() != shorter[i].id() by {
                    assert(tables[j].id() != tables[i].id());
                }
                assert(last_of_number(shorter, i));
            }
        }
        assert forall|id: usize| !numbers(tables).contains(id) implies !numbers(shorter).contains(id) && id
            != last.id() by {
            if numbers(shorter).contains(id) {
                let j = choose|j: int| 0 <= j < numbers(shorter).len() && numbers(shorter)[j] == id;
                assert(numbers(tables)[j] == id);
            }
        }
    }
}

proof fn without_tables_takes_out<T>(before: Map<usize, Arc<T>>, removed: Seq<usize>)
    ensures
        taken_out(before, removed, without_tables(before, removed)),
{
    assert forall|id: usize| #[trigger] without_tables(before, removed).contains_key(id) <==> before.contains_key(id)
        && !removed.contains(id) by {
        assert(removed.to_set().contains(id) <==> removed.contains(id));
    }
}

proof fn views_list_the_same<T>(a: LsmStorageState<T>, b: LsmStorageState<T>)
    requires
        a@.imm_memtables == b@.imm_memtables,
        a@.l0_sstables == b@.l0_sstables,
        a@.levels == b@.levels,
    ensures
        same_lists(a, b),
{
    assert(a@.levels.len() == a.levels@.len());
    assert(b@.levels.len() == b.levels@.len());
    assert forall|l: int| 0 <= l < a.levels@.len() implies (#[trigger] a.levels@[l]).0 == b.levels@[l].0
        && a.levels@[l].1@ == b.levels@[l].1@ by {
        assert(a@.levels[l] == (a.levels@[l].0, a.levels@[l].1@));
        assert(b@.levels[l] == (b.levels@[l].0, b.levels@[l].1@));
    }
}

proof fn ids_are_numbers<T: Table>(tables: Seq<Arc<T>>)
    ensures
        ids(tables) == numbers(tables),
{
    assert(ids(tables) =~= numbers(tables));
}

/// Putting tables in puts each under its number and lists the numbers in their order.
pub proof fn put_tables_puts_in<T: Table>(
    sstables: &mut HashMap<usize, Arc<T>>,
    tables: Vec<Arc<T>>,
    put: Vec<usize>,
)
    requires
        call_ensures(put_tables::<T>, (sstables, tables), put),
    ensures
        put_in(old(sstables)@, tables@, final(sstables)@),
        put@ == numbers(tables@),
{
    with_tables_puts_in(sstables@, tables@);
    ids_are_numbers(tables@);
}

/// Taking tables out takes out those of the numbers given and no others.
pub proof fn drop_tables_takes_out<T>(sstables: &mut HashMap<usize, Arc<T>>, dropped: Vec<usize>)
    requires
        call_ensures(drop_tables::<T>, (sstables, &dropped), ()),
    ensures
        taken_out(old(sstables)@, dropped@, final(sstables)@),
{
    without_tables_takes_out(sstables@, dropped@);
}

/// A copy of the state lists the same and has the same tables.
pub proof fn copies_are_the_same<T>(state: LsmStorageState<T>, copy: LsmStorageState<T>)
    requires
        call_ensures(<LsmStorageState<T> as Clone>::clone, (&state,), copy),
    ensures
        same_lists(state, copy),
        copy.sstables@ == state.sstables@,
{
    views_list_the_same(state, copy);
    assert(copy@.sstables == state@.sstables);
}

/// Tables are looked up by number, in the order of the list.
pub proof fn tables_are_looked_up<T: 'static + Table>(
    state: LsmStorageState<T>,
    list: Vec<usize>,
    tables: Vec<Arc<T>>,
)
    requires
        call_ensures(LsmStorageState::<T>::get_tables, (&state, &list), tables),
    ensures
        tables@.len() == list@.len(),
        forall|i: int| 0 <= i < list@.len() ==> #[trigger] tables@[i] == state.sstables@[list@[i]],
{
}

/// What becomes of the current state: the strategy is told of all the tables written, in their order,
/// and the tables that it removes are taken out of its answer.
pub open spec fn concluded<B: TableBuilder, L, R, S>(
    inner: LsmStorageInner<B, L, R, S>,
    current: LsmStorageState<B::Table>,
    task: CompactionTask,
    tables: Seq<Arc<B::Table>>,
    state: LsmStorageState<B::Table>,
    removed: Vec<usize>,
) -> bool where
    L: LeveledCompactionController<B::Table>,
    R: TieredCompactionController<B::Table>,
    S: SimpleLeveledCompactionController<B::Table>,
 {
    exists|snapshot: LsmStorageState<B::Table>, listed: &[usize], applied: LsmStorageState<B::Table>| #[trigger]
        told(inner.compaction_controller, snapshot, task, listed, false, applied, removed) && {
            &&& listed@ == numbers(tables)
            &&& same_lists(snapshot, current)
            &&& put_in(current.sstables@, tables, snapshot.sstables@)
            &&& same_lists(state, applied)
            &&& taken_out(applied.sstables@, removed@, state.sstables@)
        }
}

/// The record names the task and the tables written, in their order.
pub open spec fn recorded<T: Table>(record: ManifestRecord, task: CompactionTask, tables: Seq<Arc<T>>) -> bool {
    record matches ManifestRecord::Compaction(t, output) && t == task && output@ == numbers(tables)
}

proof fn concludes_is_concluded<B: TableBuilder, L, R, S>(
    inner: LsmStorageInner<B, L, R, S>,
    current: LsmStorageState<B::Table>,
    task: CompactionTask,
    tables: Seq<Arc<B::Table>>,
    state: LsmStorageState<B::Table>,
    removed: Vec<usize>,
) where
    L: LeveledCompactionController<B::Table>,
    R: TieredCompactionController<B::Table>,
    S: SimpleLeveledCompactionController<B::Table>,

    requires
        inner.concludes(current@, task, tables, state@, removed),
    ensures
        concluded(inner, current, task, tables, state, removed),
{
    let (snapshot, listed, applied) = choose|
        snapshot: LsmStorageState<B::Table>,
        listed: &[usize],
        applied: LsmStorageState<B::Table>,
    | #[trigger]
        inner.compaction_controller.applies(&snapshot, &task, listed, false, applied, removed) && {
            &&& snapshot@ == current@.with_new_tables(tables)
            &&& listed@ == ids(tables)
            &&& state@ == (crate::lsm_storage::StateView {
                sstables: without_tables(applied@.sstables, removed@),
                ..applied@
            })
        };
    assert(told(inner.compaction_controller, snapshot, task, listed, false, applied, removed));
    ids_are_numbers(tables);
    views_list_the_same(snapshot, current);
    with_tables_puts_in(current.sstables@, tables);
    views_list_the_same(state, applied);
    without_tables_takes_out(applied.sstables@, removed@);
}

/// Once a task has written its tables, the strategy in use is told of all of them, in their order and
/// with the current state in which they are already found, and the manifest is told of the same ones.
pub proof fn strategy_and_manifest_are_told_of_all_tables<B: TableBuilder, L, R, S>(
    inner: LsmStorageInner<B, L, R, S>,
    current: LsmStorageState<B::Table>,
    task: CompactionTask,
    tables: Vec<Arc<B::Table>>,
    outcome: CompactionOutcome<B::Table>,
) where
    L: LeveledCompactionController<B::Table>,
    R: TieredCompactionController<B::Table>,
    S: SimpleLeveledCompactionController<B::Table>,

    requires
        call_ensures(
            LsmStorageInner::<B, L, R, S>::finish_compaction,
            (&inner, current, task, tables),
            outcome,
        ),
    ensures
        outcome matches CompactionOutcome::Done { state, remove_files, record } && recorded(record, task, tables@)
            && concluded(inner, current, task, tables@, state, remove_files),
{
    ids_are_numbers(tables@);
    if let CompactionOutcome::Done { state, remove_files, record } = outcome {
        concludes_is_concluded(inner, current, task, tables@, state, remove_files);
    }
}

/// A compaction of the task, which the strategy asked for, has been run and has written the tables.
pub open spec fn ran<B: TableBuilder, L, R, S>(
    inner: LsmStorageInner<B, L, R, S>,
    task: CompactionTask,
    tables: Seq<Arc<B::Table>>,
) -> bool where
    L: LeveledCompactionController<B::Table>,
    R: TieredCompactionController<B::Table>,
    S: SimpleLeveledCompactionController<B::Table>,
 {
    &&& asked(inner.compaction_controller, inner.state, Some(task))
    &&& tables.len() <= usize::MAX
    &&& task_in_order(inner.state, task) ==> writes(
        inner,
        task_entries(inner.state, task),
        writes_bottom(task),
        tables,
    )
}

/// Looking for a compaction changes nothing but the number that the next table gets. Either the strategy
/// asks for none; or it asks for one that names a table which is not there; or what it asks for is run
/// on all the tables named, and strategy and manifest are told of all the tables written.
pub proof fn triggered_compactions_are_run_and_told<B: TableBuilder, L, R, S>(
    inner: &mut LsmStorageInner<B, L, R, S>,
    outcome: CompactionOutcome<B::Table>,
) where
    L: LeveledCompactionController<B::Table>,
    R: TieredCompactionController<B::Table>,
    S: SimpleLeveledCompactionController<B::Table>,

    requires
        call_ensures(
            LsmStorageInner::<B, L, R, S>::trigger_compaction,
            (inner,),
            Ok::<CompactionOutcome<B::Table>, StorageError>(outcome),
        ),
    ensures
        only_numbers_drawn(*old(inner), *final(inner)),
        match outcome {
            CompactionOutcome::Idle => {
                &&& asked(old(inner).compaction_controller, old(inner).state, None)
                &&& final(inner).next_sst_id == old(inner).next_sst_id
            },
            CompactionOutcome::Refused(task) => {
                &&& asked(old(inner).compaction_controller, old(inner).state, Some(task))
                &&& final(inner).next_sst_id == old(inner).next_sst_id
                &&& exists|id: usize| #[trigger] names(task, id) && !old(inner).state.sstables@.contains_key(id)
            },
            CompactionOutcome::Done { state, remove_files, record } => exists|
                task: CompactionTask,
                tables: Seq<Arc<B::Table>>,
            | #[trigger]
                ran(*old(inner), task, tables) && {
                    &&& recorded(record, task, tables)
                    &&& concluded(*old(inner), old(inner).state, task, tables, state, remove_files)
                    &&& final(inner).next_sst_id == number_after(old(inner).next_sst_id, tables.len() as int)
                },
        },
{
    let before = *inner;
    triggered(before, outcome, final(inner).next_sst_id);
}

/// The part of the contract of `trigger_compaction` that speaks of success, for given values.
spec fn trigger_answers<B: TableBuilder, L, R, S>(
    inner: LsmStorageInner<B, L, R, S>,
    outcome: CompactionOutcome<B::Table>,
    next_sst_id: usize,
    generated: Option<CompactionTask>,
) -> bool where
    L: LeveledCompactionController<B::Table>,
    R: TieredCompactionController<B::Table>,
    S: SimpleLeveledCompactionController<B::Table>,
 {
    match generated {
        None => outcome is Idle && next_sst_id == inner.next_sst_id,
        Some(task) => {
            ||| {
                &&& inner.state@.opening(&task) is Missing
                &&& outcome == CompactionOutcome::<B::Table>::Refused(task)
                &&& next_sst_id == inner.next_sst_id
            }
            ||| outcome matches CompactionOutcome::Done { state, remove_files, record }
                && record matches ManifestRecord::Compaction(t, output) && t == task && exists|
                tables: Seq<Arc<B::Table>>,
            | #[trigger]
                inner.compacts_to(inner.state@.compaction_input(&task), task.reaches_bottom(), tables) && {
                    &&& output@ == ids(tables)
                    &&& inner.concludes(inner.state@, task, tables, state@, remove_files)
                    &&& next_sst_id == crate::lsm_storage::nth_id(inner.next_sst_id, tables.len())
                }
        },
    }
}

proof fn triggered<B: TableBuilder, L, R, S>(
    inner: LsmStorageInner<B, L, R, S>,
    outcome: CompactionOutcome<B::Table>,
    next_sst_id: usize,
) where
    L: LeveledCompactionController<B::Table>,
    R: TieredCompactionController<B::Table>,
    S: SimpleLeveledCompactionController<B::Table>,

    requires
        exists|generated: Option<CompactionTask>| #[trigger]
            inner.compaction_controller.generates(&inner.state, generated) && trigger_answers(
                inner,
                outcome,
                next_sst_id,
                generated,
            ),
    ensures
        match outcome {
            CompactionOutcome::Idle => {
                &&& asked(inner.compaction_controller, inner.state, None)
                &&& next_sst_id == inner.next_sst_id
            },
            CompactionOutcome::Refused(task) => {
                &&& asked(inner.compaction_controller, inner.state, Some(task))
                &&& next_sst_id == inner.next_sst_id
                &&& exists|id: usize| #[trigger] names(task, id) && !inner.state.sstables@.contains_key(id)
            },
            CompactionOutcome::Done { state, remove_files, record } => exists|
                task: CompactionTask,
                tables: Seq<Arc<B::Table>>,
            | #[trigger]
                ran(inner, task, tables) && {
                    &&& recorded(record, task, tables)
                    &&& concluded(inner, inner.state, task, tables, state, remove_files)
                    &&& next_sst_id == number_after(inner.next_sst_id, tables.len() as int)
                },
        },
{
    let generated = choose|generated: Option<CompactionTask>| #[trigger]
        inner.compaction_controller.generates(&inner.state, generated) && trigger_answers(
            inner,
            outcome,
            next_sst_id,
            generated,
        );
    generated_is_asked(inner.compaction_controller, inner.state, generated);
    match outcome {
        CompactionOutcome::Idle => {},
        CompactionOutcome::Refused(task) => {
            if forall|id: usize| #[trigger] names(task, id) ==> inner.state.sstables@.contains_key(id) {
                assert forall|id: usize| #[trigger] task.reads(id) implies inner.state@.sstables.contains_key(id) by {
                    crate::task_laws::tasks_read_what_they_name(task, id);
                }
                inner.state@.known_tables_are_not_missed(&task);
            }
        },
        CompactionOutcome::Done { state, remove_files, record } => {
            let task = generated->0;
            let input = inner.state@.compaction_input(&task);
            let tables = choose|tables: Seq<Arc<B::Table>>| #[trigger]
                inner.compacts_to(input, task.reaches_bottom(), tables) && {
                    &&& record->Compaction_1@ == ids(tables)
                    &&& inner.concludes(inner.state@, task, tables, state@, remove_files)
                    &&& next_sst_id == crate::lsm_storage::nth_id(inner.next_sst_id, tables.len())
                };
            let output = record->Compaction_1;
            assert(output@.len() == output.len());
            assert(ids(tables).len() == tables.len());
            assert(tables.len() <= usize::MAX);
            ids_are_numbers(tables);
            concludes_is_concluded(inner, inner.state, task, tables, state, remove_files);
            nth_id_counts_on(inner.next_sst_id, tables.len());
            if task_in_order(inner.state, task) {
                compaction_input_is_what_the_task_names(inner.state, task);
                assert(task.reaches_bottom() == writes_bottom(task));
                compaction_of_sorted_input_writes(inner, input, writes_bottom(task), tables);
            }
            assert(ran(inner, task, tables));
        },
    }
}

/// The strategy puts exactly the tables that it is told of into level `l`, adds and removes no other
/// table to or from the state itself, and does not give up the new ones.
pub open spec fn replaces_level<T, L, R, S>(controller: CompactionController<L, R, S>, l: int) -> bool where
    L: LeveledCompactionController<T>,
    R: TieredCompactionController<T>,
    S: SimpleLeveledCompactionController<T>,
 {
    forall|
        state: LsmStorageState<T>,
        task: CompactionTask,
        listed: &[usize],
        applied: LsmStorageState<T>,
        removed: Vec<usize>,
    | #[trigger]
        told(controller, state, task, listed, false, applied, removed) ==> {
            &&& 0 <= l < applied.levels@.len()
            &&& applied.levels@[l].1@ == listed@
            &&& applied.sstables@ == state.sstables@
            &&& forall|i: int| 0 <= i < listed@.len() ==> !removed@.contains(#[trigger] listed@[i])
        }
}

/// Where the strategy puts the tables that it is told of into a level, that level holds after the
/// compaction what stays of the entries of all the tables that the task named.
pub proof fn compacted_level_holds_what_stays<B: TableBuilder, L, R, S>(
    inner: &mut LsmStorageInner<B, L, R, S>,
    state: LsmStorageState<B::Table>,
    remove_files: Vec<usize>,
    record: ManifestRecord,
    l: int,
) where
    L: LeveledCompactionController<B::Table>,
    R: TieredCompactionController<B::Table>,
    S: SimpleLeveledCompactionController<B::Table>,

    requires
        call_ensures(
            LsmStorageInner::<B, L, R, S>::trigger_compaction,
            (inner,),
            Ok::<CompactionOutcome<B::Table>, StorageError>(
                CompactionOutcome::Done { state, remove_files, record },
            ),
        ),
        replaces_level::<B::Table, L, R, S>(inner.compaction_controller, l),
        forall|task: CompactionTask| #[trigger]
            asked(inner.compaction_controller, inner.state, Some(task)) ==> task_in_order(inner.state, task),
    ensures
        0 <= l < state.levels@.len(),
        exists|task: CompactionTask| #[trigger]
            asked(old(inner).compaction_controller, old(inner).state, Some(task)) && forall|e: Entry<KeyView>| #[trigger]
                held(state, state.levels@[l].1@, e) <==> stays(
                    task_entries(old(inner).state, task),
                    writes_bottom(task),
                    old(inner).watermark,
                    old(inner).compaction_filters@,
                    e,
                ),
{
    let before = *inner;
    triggered(before, CompactionOutcome::Done { state, remove_files, record }, final(inner).next_sst_id);
    let (task, tables) = choose|task: CompactionTask, tables: Seq<Arc<B::Table>>| #[trigger]
        ran(before, task, tables) && {
            &&& recorded(record, task, tables)
            &&& concluded(before, before.state, task, tables, state, remove_files)
        };
    let (snapshot, listed, applied) = choose|
        snapshot: LsmStorageState<B::Table>,
        listed: &[usize],
        applied: LsmStorageState<B::Table>,
    | #[trigger]
        told(before.compaction_controller, snapshot, task, listed, false, applied, remove_files) && {
            &&& listed@ == numbers(tables)
            &&& same_lists(snapshot, before.state)
            &&& put_in(before.state.sstables@, tables, snapshot.sstables@)
            &&& same_lists(state, applied)
            &&& taken_out(applied.sstables@, remove_files@, state.sstables@)
        };
    let list = state.levels@[l].1@;
    assert(applied.levels@[l].1@ == listed@);
    assert(list == numbers(tables));
    assert forall|i: int| 0 <= i < tables.len() implies #[trigger] state.sstables@[list[i]] == tables[i] by {
        assert(list[i] == tables[i].id());
        assert forall|j: int| i < j < tables.len() implies (#[trigger] tables[j]).id() != tables[i].id() by {
            assert(tables[i].id() == number_after(before.next_sst_id, i));
            assert(tables[j].id() == number_after(before.next_sst_id, j));
        }
        assert(last_of_number(tables, i));
        assert(!remove_files@.contains(listed@[i]));
        assert(snapshot.sstables@.contains_key(list[i]));
        assert(state.sstables@.contains_key(list[i]));
    }
    assert forall|e: Entry<KeyView>| #[trigger] held(state, list, e) <==> stays(
        task_entries(before.state, task),
        writes_bottom(task),
        before.watermark,
        before.compaction_filters@,
        e,
    ) by {
        held_in_written(state, list, tables, e);
    }
}

/// A list whose tables are these holds what they hold.
proof fn held_in_written<T: Table>(
    state: LsmStorageState<T>,
    list: Seq<usize>,
    tables: Seq<Arc<T>>,
    e: Entry<KeyView>,
)
    requires
        list.len() == tables.len(),
        forall|i: int| 0 <= i < tables.len() ==> #[trigger] state.sstables@[list[i]] == tables[i],
    ensures
        held(state, list, e) <==> concatenated(tables).contains(e),
{
    let parts = Seq::new(tables.len(), |i: int| tables[i].entries());
    assert(parts =~= crate::table::contents(tables));
    crate::task_laws::flat_holds(tables, e);
    if held(state, list, e) {
        let k = choose|k: int| #[trigger] held_at(state, list, k, e);
        assert(state.sstables@[list[k]] == tables[k]);
        assert(tables[k].entries().contains(e));
    }
    if exists|k: int| 0 <= k < tables.len() && (#[trigger] tables[k]).entries().contains(e) {
        let k = choose|k: int| 0 <= k < tables.len() && (#[trigger] tables[k]).entries().contains(e);
        assert(state.sstables@[list[k]] == tables[k]);
        assert(held_at(state, list, k, e));
    }
}

/// The state after the tables of L0 and of the first level have been replaced.
pub open spec fn replaced<T: Table>(
    before: LsmStorageState<T>,
    tables: Seq<Arc<T>>,
    after: LsmStorageState<T>,
) -> bool {
    &&& after.imm_memtables@ == before.imm_memtables@
    &&& after.l0_sstables@.len() == 0
    &&& after.levels@.len() == before.levels@.len()
    &&& after.levels@[0].0 == before.levels@[0].0
    &&& after.levels@[0].1@ == numbers(tables)
    &&& forall|l: int|
        0 < l < after.levels@.len() ==> (#[trigger] after.levels@[l]).0 == before.levels@[l].0 && after.levels@[l].1@
            == before.levels@[l].1@
    &&& exists|rest: Map<usize, Arc<T>>| #[trigger]
        taken_out(before.sstables@, before.l0_sstables@ + before.levels@[0].1@, rest) && put_in(
            rest,
            tables,
            after.sstables@,
        )
}

proof fn after_full_compaction_is_replaced<T: Table>(
    before: LsmStorageState<T>,
    tables: Seq<Arc<T>>,
    after: LsmStorageState<T>,
)
    requires
        before.levels@.len() > 0,
        after@ == before@.after_full_compaction(tables),
    ensures
        replaced(before, tables, after),
{
    ids_are_numbers(tables);
    let gone = before.l0_sstables@ + before.levels@[0].1@;
    assert(before@.levels[0] == (before.levels@[0].0, before.levels@[0].1@));
    let rest = without_tables(before.sstables@, gone);
    without_tables_takes_out(before.sstables@, gone);
    with_tables_puts_in(rest, tables);
    assert(after@.levels.len() == after.levels@.len());
    assert forall|l: int| 0 <= l < after.levels@.len() implies after@.levels[l] == (
        (#[trigger] after.levels@[l]).0,
        after.levels@[l].1@,
    ) by {}
    assert forall|l: int| 0 <= l < before.levels@.len() implies before@.levels[l] == (
        (#[trigger] before.levels@[l]).0,
        before.levels@[l].1@,
    ) by {}
    assert forall|l: int| 0 < l < after.levels@.len() implies (#[trigger] after.levels@[l]).0 == before.levels@[l].0
        && after.levels@[l].1@ == before.levels@[l].1@ by {
        assert(after@.levels[l] == before@.levels[l]);
        assert(before@.levels[l] == (before.levels@[l].0, before.levels@[l].1@));
    }
    assert(after@.levels[0] == (after.levels@[0].0, after.levels@[0].1@));
    assert(taken_out(before.sstables@, gone, rest));
}

/// The tables of a full compaction take the place of L0 and of the first level, and nothing else
/// changes.
pub proof fn full_compaction_is_installed<T: Table>(
    state: &mut LsmStorageState<T>,
    tables: Vec<Arc<T>>,
    listed: Vec<usize>,
)
    requires
        call_ensures(LsmStorageState::<T>::install_full_compaction, (state, tables), listed),
        state.levels@.len() > 0,
    ensures
        replaced(*old(state), tables@, *final(state)),
        listed@ == numbers(tables@),
{
    let before = *state;
    let after = *final(state);
    ids_are_numbers(tables@);
    after_full_compaction_is_replaced(before, tables@, after);
}

/// The entries that L0 and the first level hold, as one reads them who prefers newer tables of L0, and
/// L0 to the level.
pub open spec fn upper_levels<T: Table>(state: LsmStorageState<T>) -> Set<Entry<KeyView>> {
    Set::new(
        |e: Entry<KeyView>|
            crate::task_laws::read_over_level(state, state.l0_sstables@, state.levels@[0].1@, e),
    )
}

/// A full compaction puts what stays of L0 and the first level in their place, has the files of all their
/// tables removed, and has the manifest told of the tables read and written.
pub proof fn full_compaction_replaces_with_what_stays<B: TableBuilder, L, R, S>(
    inner: &mut LsmStorageInner<B, L, R, S>,
    done: FullCompaction,
)
    requires
        call_ensures(
            LsmStorageInner::<B, L, R, S>::force_full_compaction,
            (inner,),
            Ok::<FullCompaction, StorageError>(done),
        ),
        inner.state.levels@.len() > 0,
        tables_in_order(inner.state, inner.state.l0_sstables@),
        level_in_order(inner.state, inner.state.levels@[0].1@),
    ensures
        done.remove_files@ == old(inner).state.l0_sstables@ + old(inner).state.levels@[0].1@,
        exists|tables: Seq<Arc<B::Table>>| #[trigger]
            writes(*old(inner), upper_levels(old(inner).state), true, tables) && {
                &&& replaced(old(inner).state, tables, final(inner).state)
                &&& done.record matches ManifestRecord::Compaction(task, output) && {
                    &&& output@ == numbers(tables)
                    &&& task matches CompactionTask::ForceFullCompaction { l0_sstables, l1_sstables } && l0_sstables@
                        == old(inner).state.l0_sstables@ && l1_sstables@ == old(inner).state.levels@[0].1@
                }
                &&& final(inner).next_sst_id == number_after(old(inner).next_sst_id, tables.len() as int)
            },
        final(inner).options == old(inner).options,
        final(inner).compaction_controller == old(inner).compaction_controller,
        final(inner).compaction_filters == old(inner).compaction_filters,
        final(inner).watermark == old(inner).watermark,
        final(inner).store == old(inner).store,
{
    let before = *inner;
    let state = before.state;
    let l0 = state.l0_sstables@;
    let l1 = state.levels@[0].1@;
    assert(state@.levels[0] == (state.levels@[0].0, state.levels@[0].1@));
    let input = state@.l0_over(l0, l1);
    let output = done.record->Compaction_1;
    let tables = choose|tables: Seq<Arc<B::Table>>| #[trigger]
        before.compacts_to(input, true, tables) && {
            &&& output@ == ids(tables)
            &&& final(inner).state@ == state@.after_full_compaction(tables)
            &&& final(inner).next_sst_id == crate::lsm_storage::nth_id(before.next_sst_id, tables.len())
        };
    assert(output@.len() == output.len());
    assert(ids(tables).len() == tables.len());
    ids_are_numbers(tables);
    crate::task_laws::l0_over_is_read(state, l0, l1);
    crate::compaction_laws::in_order_is_sorted(input);
    assert(input.to_set() =~= upper_levels(state)) by {
        assert forall|e: Entry<KeyView>| #[trigger] input.to_set().contains(e) <==> upper_levels(state).contains(e) by {
            assert(input.to_set().contains(e) <==> input.contains(e));
        }
    }
    compaction_of_sorted_input_writes(before, input, true, tables);
    nth_id_counts_on(before.next_sst_id, tables.len());
    let after = final(inner).state;
    after_full_compaction_is_replaced(state, tables, after);
}

/// Numbers for tables are given out in turn.
pub proof fn numbers_are_given_out_in_turn<B: TableBuilder, L, R, S>(inner: &mut LsmStorageInner<B, L, R, S>, id: usize)
    requires
        call_ensures(LsmStorageInner::<B, L, R, S>::next_sst_id, (inner,), id),
    ensures
        id == old(inner).next_sst_id,
        final(inner).next_sst_id == number_after(old(inner).next_sst_id, 1),
        only_numbers_drawn(*old(inner), *final(inner)),
{
}

/// A state that is installed is there, and nothing else changes.
pub proof fn installed_states_are_there<B: TableBuilder, L, R, S>(
    inner: &mut LsmStorageInner<B, L, R, S>,
    state: LsmStorageState<B::Table>,
)
    requires
        call_ensures(LsmStorageInner::<B, L, R, S>::install_state, (inner, state), ()),
    ensures
        final(inner).state == state,
        final(inner).next_sst_id == old(inner).next_sst_id,
        final(inner).options == old(inner).options,
        final(inner).compaction_controller == old(inner).compaction_controller,
        final(inner).compaction_filters == old(inner).compaction_filters,
        final(inner).watermark == old(inner).watermark,
        final(inner).store == old(inner).store,
{
}

/// A flush is due once as many memtables wait as the limit says.
pub proof fn flushes_are_due_at_the_limit<B: TableBuilder, L, R, S>(inner: LsmStorageInner<B, L, R, S>, due: bool)
    requires
        call_ensures(LsmStorageInner::<B, L, R, S>::trigger_flush, (&inner,), due),
    ensures
        due <==> inner.state.imm_memtables@.len() >= inner.options.num_memtable_limit,
{
}

/// Memtables are flushed to L0 under every strategy but the tiered one.
pub proof fn only_tiers_have_no_l0<L, R, S>(controller: CompactionController<L, R, S>, l0: bool)
    requires
        call_ensures(CompactionController::<L, R, S>::flush_to_l0, (&controller,), l0),
    ensures
        l0 <==> controller is Leveled || controller is Simple || controller is NoCompaction,
{
}

/// Compactions run in the background under every strategy, and not without one.
pub proof fn strategies_compact_in_background(options: CompactionOptions, yes: bool)
    requires
        call_ensures(CompactionOptions::compacts_in_background, (&options,), yes),
    ensures
        yes <==> options is Leveled || options is Simple || options is Tiered,
{
}

} // verus!
