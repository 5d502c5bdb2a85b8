//! Which entries the compactions of each kind read, and what they write of them.

use std::sync::Arc;

use vstd::prelude::*;

use crate::compact::CompactionTask;
use crate::compaction_laws::compaction_of_sorted_input_writes;
use crate::compaction_laws::in_order;
use crate::compaction_laws::in_order_is_sorted;
use crate::compaction_laws::number_after;
use crate::compaction_laws::only_numbers_drawn;
use crate::compaction_laws::writes;
use crate::error::StorageError;
use crate::key::KeyModel;
use crate::key::KeyView;
use crate::key_laws::keys_are_ordered_newest_first;
use crate::key_laws::sorts_before;
use crate::lsm_storage::LsmStorageInner;
use crate::lsm_storage::LsmStorageState;
use crate::merge::has_key;
use crate::merge::is_preferred;
use crate::merge::merge_all_prefers_earlier;
use crate::merge::sorted;
use crate::merge::Entry;
use crate::storage_laws::l0_over_prefers_newer;
use crate::storage_laws::level_over_prefers_upper;
use crate::storage_laws::nth_id_counts_on;
use crate::table::contents;
use crate::table::Table;
use crate::table::TableBuilder;

verus! {

/// What the table of this number holds.
pub open spec fn entries_of<T: Table>(state: LsmStorageState<T>, id: usize) -> Seq<Entry<KeyView>> {
    state.sstables@[id].entries()
}

/// The entry is in the table on place `k` of the list.
pub open spec fn held_at<T: Table>(state: LsmStorageState<T>, ids: Seq<usize>, k: int, e: Entry<KeyView>) -> bool {
    0 <= k < ids.len() && entries_of(state, ids[k]).contains(e)
}

/// The entry is in one of the tables on the list.
pub open spec fn held<T: Table>(state: LsmStorageState<T>, ids: Seq<usize>, e: Entry<KeyView>) -> bool {
    exists|k: int| #[trigger] held_at(state, ids, k, e)
}

/// One of the tables on the list before place `n` has an entry with this key.
pub open spec fn key_held_before<T: Table>(state: LsmStorageState<T>, ids: Seq<usize>, n: int, key: KeyView) -> bool {
    exists|k: int, x: Entry<KeyView>| #[trigger] held_at(state, ids, k, x) && k < n && x.key == key
}

/// One of the tables on the list has an entry with this key.
pub open spec fn key_held<T: Table>(state: LsmStorageState<T>, ids: Seq<usize>, key: KeyView) -> bool {
    key_held_before(state, ids, ids.len() as int, key)
}

/// Every table on the list is in order.
pub open spec fn tables_in_order<T: Table>(state: LsmStorageState<T>, ids: Seq<usize>) -> bool {
    forall|k: int| 0 <= k < ids.len() ==> in_order(entries_of(state, #[trigger] ids[k]))
}

/// The tables on the list are in order, and each lies before the next.
pub open spec fn level_in_order<T: Table>(state: LsmStorageState<T>, ids: Seq<usize>) -> bool {
    &&& tables_in_order(state, ids)
    &&& forall|k: int, l: int, x: Entry<KeyView>, y: Entry<KeyView>| #[trigger]
        held_at(state, ids, k, x) && #[trigger] held_at(state, ids, l, y) && k < l ==> sorts_before(x.key, y.key)
}

/// Of tables that may overlap, newest first, over a level: an entry counts where no newer table has its
/// key, and one of the level where none of the tables has.
pub open spec fn read_over_level<T: Table>(
    state: LsmStorageState<T>,
    upper: Seq<usize>,
    lower: Seq<usize>,
    e: Entry<KeyView>,
) -> bool {
    ||| exists|k: int| #[trigger] held_at(state, upper, k, e) && !key_held_before(state, upper, k, e.key)
    ||| held(state, lower, e) && !key_held(state, upper, e.key)
}

/// Of a level over another: an entry of the lower one counts where the upper one does not have its key.
pub open spec fn read_level_over_level<T: Table>(
    state: LsmStorageState<T>,
    upper: Seq<usize>,
    lower: Seq<usize>,
    e: Entry<KeyView>,
) -> bool {
    held(state, upper, e) || (held(state, lower, e) && !key_held(state, upper, e.key))
}

/// Of tiers, newest first: an entry counts where no newer tier has its key.
pub open spec fn read_from_tiers<T: Table>(
    state: LsmStorageState<T>,
    tiers: Seq<(usize, Vec<usize>)>,
    e: Entry<KeyView>,
) -> bool {
    exists|t: int|
        0 <= t < tiers.len() && held(state, (#[trigger] tiers[t]).1@, e) && forall|u: int|
            0 <= u < t ==> !key_held(state, (#[trigger] tiers[u]).1@, e.key)
}

/// The task moves tables out of a level other than L0.
pub open spec fn from_level(upper_level: Option<usize>) -> bool {
    upper_level matches Some(level) && level > 0
}

/// The entries that a compaction has to work on: those of all the tables that the task names, each key
/// once.
pub open spec fn task_entries<T: Table>(state: LsmStorageState<T>, task: CompactionTask) -> Set<Entry<KeyView>> {
    Set::new(
        |e: Entry<KeyView>|
            match task {
                CompactionTask::ForceFullCompaction { l0_sstables, l1_sstables } => read_over_level(
                    state,
                    l0_sstables@,
                    l1_sstables@,
                    e,
                ),
                CompactionTask::Simple(t) => if from_level(t.upper_level) {
                    read_level_over_level(state, t.upper_level_sst_ids@, t.lower_level_sst_ids@, e)
                } else {
                    read_over_level(state, t.upper_level_sst_ids@, t.lower_level_sst_ids@, e)
                },
                CompactionTask::Leveled(t) => if from_level(t.upper_level) {
                    read_level_over_level(state, t.upper_level_sst_ids@, t.lower_level_sst_ids@, e)
                } else {
                    read_over_level(state, t.upper_level_sst_ids@, t.lower_level_sst_ids@, e)
                },
                CompactionTask::Tiered(t) => read_from_tiers(state, t.tiers@, e),
            },
    )
}

/// The tables that the task names are in order, where they stand for levels or tiers also among each
/// other.
pub open spec fn task_in_order<T: Table>(state: LsmStorageState<T>, task: CompactionTask) -> bool {
    match task {
        CompactionTask::ForceFullCompaction { l0_sstables, l1_sstables } => tables_in_order(state, l0_sstables@)
            && level_in_order(state, l1_sstables@),
        CompactionTask::Simple(t) => level_in_order(state, t.lower_level_sst_ids@) && if from_level(t.upper_level) {
            level_in_order(state, t.upper_level_sst_ids@)
        } else {
            tables_in_order(state, t.upper_level_sst_ids@)
        },
        CompactionTask::Leveled(t) => level_in_order(state, t.lower_level_sst_ids@) && if from_level(t.upper_level) {
            level_in_order(state, t.upper_level_sst_ids@)
        } else {
            tables_in_order(state, t.upper_level_sst_ids@)
        },
        CompactionTask::Tiered(t) => forall|i: int|
            0 <= i < t.tiers@.len() ==> level_in_order(state, (#[trigger] t.tiers@[i]).1@),
    }
}

/// Deletions may be dropped: for full compactions always, else where the task says that nothing lies
/// below.
pub open spec fn writes_bottom(task: CompactionTask) -> bool {
    match task {
        CompactionTask::ForceFullCompaction { .. } => true,
        CompactionTask::Simple(t) => t.is_lower_level_bottom_level,
        CompactionTask::Leveled(t) => t.is_lower_level_bottom_level,
        CompactionTask::Tiered(t) => t.bottom_tier_included,
    }
}

/// The task names the table of this number.
pub open spec fn names(task: CompactionTask, id: usize) -> bool {
    match task {
        CompactionTask::ForceFullCompaction { l0_sstables, l1_sstables } => l0_sstables@.contains(id)
            || l1_sstables@.contains(id),
        CompactionTask::Simple(t) => t.upper_level_sst_ids@.contains(id) || t.lower_level_sst_ids@.contains(id),
        CompactionTask::Leveled(t) => t.upper_level_sst_ids@.contains(id) || t.lower_level_sst_ids@.contains(id),
        CompactionTask::Tiered(t) => exists|i: int| 0 <= i < t.tiers@.len() && (#[trigger] t.tiers@[i]).1@.contains(id),
    }
}

/// Tables one after another hold what one of them holds.
pub proof fn flat_holds<T: Table>(tables: Seq<Arc<T>>, e: Entry<KeyView>)
    ensures
        contents(tables).flatten().contains(e) <==> exists|k: int|
            0 <= k < tables.len() && (#[trigger] tables[k]).entries().contains(e),
    decreases tables.len(),
{
    let flat = contents(tables).flatten();
    if tables.len() > 0 {
        let tail = tables.drop_first();
        assert(contents(tables).drop_first() =~= contents(tail));
        flat_holds(tail, e);
        let first = tables[0].entries();
        let rest = contents(tail).flatten();
        assert(contents(tables).first() == first);
        assert(flat == first + rest);
        if flat.contains(e) {
            let i = choose|i: int| 0 <= i < flat.len() && flat[i] == e;
            if i < first.len() {
                assert(first[i] == e);
                assert(tables[0].entries().contains(e));
            } else {
                assert(rest[i - first.len()] == e);
                let k = choose|k: int| 0 <= k < tail.len() && (#[trigger] tail[k]).entries().contains(e);
                assert(tables[k + 1] == tail[k]);
            }
        }
        if exists|k: int| 0 <= k < tables.len() && (#[trigger] tables[k]).entries().contains(e) {
            let k = choose|k: int| 0 <= k < tables.len() && (#[trigger] tables[k]).entries().contains(e);
            if k == 0 {
                let i = choose|i: int| 0 <= i < first.len() && first[i] == e;
                assert(flat[i] == e);
            } else {
                assert(tail[k - 1] == tables[k]);
                let i = choose|i: int| 0 <= i < rest.len() && rest[i] == e;
                assert(flat[first.len() + i] == e);
            }
        }
    } else {
        assert(flat =~= Seq::empty());
    }
}

proof fn flat_is_sorted<T: Table>(tables: Seq<Arc<T>>)
    requires
        forall|k: int| 0 <= k < tables.len() ==> sorted((#[trigger] tables[k]).entries()),
        forall|k: int, l: int, x: Entry<KeyView>, y: Entry<KeyView>|
            0 <= k < l < tables.len() && #[trigger] tables[k].entries().contains(x)
                && #[trigger] tables[l].entries().contains(y) ==> x.key.before(y.key),
    ensures
        sorted(contents(tables).flatten()),
    decreases tables.len(),
{
    let flat = contents(tables).flatten();
    if tables.len() > 0 {
        let tail = tables.drop_first();
        assert(contents(tables).drop_first() =~= contents(tail));
        assert forall|k: int| 0 <= k < tail.len() implies sorted((#[trigger] tail[k]).entries()) by {
            assert(tail[k] == tables[k + 1]);
        }
        assert forall|k: int, l: int, x: Entry<KeyView>, y: Entry<KeyView>|
            0 <= k < l < tail.len() && #[trigger] tail[k].entries().contains(x)
                && #[trigger] tail[l].entries().contains(y) implies x.key.before(y.key) by {
            assert(tables[k + 1].entries().contains(x));
            assert(tables[l + 1].entries().contains(y));
        }
        flat_is_sorted(tail);
        let first = tables[0].entries();
        let rest = contents(tail).flatten();
        assert(contents(tables).first() == first);
        assert(flat == first + rest);
        assert(sorted(first));
        assert forall|i: int, j: int| 0 <= i < j < flat.len() implies (#[trigger] flat[i]).key.before(
            (#[trigger] flat[j]).key,
        ) by {
            if j < first.len() {
                assert(flat[i] == first[i] && flat[j] == first[j]);
            } else if i >= first.len() {
                assert(flat[i] == rest[i - first.len()] && flat[j] == rest[j - first.len()]);
            } else {
                assert(flat[i] == first[i] && flat[j] == rest[j - first.len()]);
                assert(rest.contains(flat[j]));
                flat_holds(tail, flat[j]);
                let k = choose|k: int| 0 <= k < tail.len() && (#[trigger] tail[k]).entries().contains(flat[j]);
                assert(tables[k + 1].entries().contains(flat[j]));
                assert(tables[0].entries().contains(flat[i]));
            }
        }
    } else {
        assert(flat =~= Seq::empty());
    }
}

proof fn list_is_held<T: Table>(state: LsmStorageState<T>, ids: Seq<usize>)
    ensures
        forall|e: Entry<KeyView>| #[trigger]
            contents(state@.tables(ids)).flatten().contains(e) <==> held(state, ids, e),
        forall|key: KeyView| #[trigger]
            has_key(contents(state@.tables(ids)).flatten(), key) <==> key_held(state, ids, key),
        forall|k: int| 0 <= k < ids.len() ==> #[trigger] contents(state@.tables(ids))[k] == entries_of(state, ids[k]),
{
    let tables = state@.tables(ids);
    let flat = contents(tables).flatten();
    assert forall|e: Entry<KeyView>| #[trigger] flat.contains(e) <==> held(state, ids, e) by {
        flat_holds(tables, e);
        if flat.contains(e) {
            let k = choose|k: int| 0 <= k < tables.len() && (#[trigger] tables[k]).entries().contains(e);
            assert(held_at(state, ids, k, e));
        }
        if held(state, ids, e) {
            let k = choose|k: int| #[trigger] held_at(state, ids, k, e);
            assert(tables[k].entries().contains(e));
        }
    }
    assert forall|key: KeyView| #[trigger] has_key(flat, key) <==> key_held(state, ids, key) by {
        if has_key(flat, key) {
            let i = choose|i: int| 0 <= i < flat.len() && (#[trigger] flat[i]).key == key;
            assert(flat.contains(flat[i]));
            assert(held(state, ids, flat[i]));
            let k = choose|k: int| #[trigger] held_at(state, ids, k, flat[i]);
            assert(held_at(state, ids, k, flat[i]) && k < ids.len() && flat[i].key == key);
        }
        if key_held(state, ids, key) {
            let (k, x) = choose|k: int, x: Entry<KeyView>| #[trigger]
                held_at(state, ids, k, x) && k < ids.len() && x.key == key;
            assert(held(state, ids, x));
            assert(flat.contains(x));
            let i = choose|i: int| 0 <= i < flat.len() && flat[i] == x;
            assert(flat[i].key == key);
        }
    }
}

proof fn level_is_sorted<T: Table>(state: LsmStorageState<T>, ids: Seq<usize>)
    requires
        level_in_order(state, ids),
    ensures
        sorted(contents(state@.tables(ids)).flatten()),
{
    let tables = state@.tables(ids);
    assert forall|k: int| 0 <= k < tables.len() implies sorted((#[trigger] tables[k]).entries()) by {
        in_order_is_sorted(entries_of(state, ids[k]));
    }
    assert forall|k: int, l: int, x: Entry<KeyView>, y: Entry<KeyView>|
        0 <= k < l < tables.len() && #[trigger] tables[k].entries().contains(x)
            && #[trigger] tables[l].entries().contains(y) implies x.key.before(y.key) by {
        assert(held_at(state, ids, k, x) && held_at(state, ids, l, y));
        keys_are_ordered_newest_first(x.key, y.key);
    }
    flat_is_sorted(tables);
}

proof fn part_has_key<T: Table>(state: LsmStorageState<T>, ids: Seq<usize>, k: int, key: KeyView)
    requires
        0 <= k < ids.len(),
    ensures
        has_key(contents(state@.tables(ids))[k], key) <==> exists|x: Entry<KeyView>| #[trigger]
            held_at(state, ids, k, x) && x.key == key,
{
    let part = contents(state@.tables(ids))[k];
    assert(part == entries_of(state, ids[k]));
    if has_key(part, key) {
        let i = choose|i: int| 0 <= i < part.len() && (#[trigger] part[i]).key == key;
        assert(part.contains(part[i]));
        assert(held_at(state, ids, k, part[i]) && part[i].key == key);
    }
    if exists|x: Entry<KeyView>| #[trigger] held_at(state, ids, k, x) && x.key == key {
        let x = choose|x: Entry<KeyView>| #[trigger] held_at(state, ids, k, x) && x.key == key;
        let i = choose|i: int| 0 <= i < part.len() && part[i] == x;
        assert(part[i].key == key);
    }
}

pub proof fn l0_over_is_read<T: Table>(state: LsmStorageState<T>, upper: Seq<usize>, lower: Seq<usize>)
    requires
        tables_in_order(state, upper),
        level_in_order(state, lower),
    ensures
        sorted(state@.l0_over(upper, lower)),
        forall|e: Entry<KeyView>| #[trigger]
            state@.l0_over(upper, lower).contains(e) <==> read_over_level(state, upper, lower, e),
{
    let parts = contents(state@.tables(upper));
    assert forall|i: int| 0 <= i < upper.len() implies sorted((#[trigger] state@.tables(upper)[i]).entries()) by {
        in_order_is_sorted(entries_of(state, upper[i]));
    }
    level_is_sorted(state, lower);
    l0_over_prefers_newer(state@, upper, lower);
    list_is_held(state, lower);
    assert forall|e: Entry<KeyView>| #[trigger] state@.l0_over(upper, lower).contains(e) <==> read_over_level(
        state,
        upper,
        lower,
        e,
    ) by {
        if exists|i: int| #[trigger] is_preferred(parts, i, e) {
            let i = choose|i: int| #[trigger] is_preferred(parts, i, e);
            assert(held_at(state, upper, i, e));
            if key_held_before(state, upper, i, e.key) {
                let (k, x) = choose|k: int, x: Entry<KeyView>| #[trigger]
                    held_at(state, upper, k, x) && k < i && x.key == e.key;
                part_has_key(state, upper, k, e.key);
                assert(has_key(parts[k], e.key));
            }
        }
        if exists|k: int| #[trigger] held_at(state, upper, k, e) && !key_held_before(state, upper, k, e.key) {
            let k = choose|k: int| #[trigger] held_at(state, upper, k, e) && !key_held_before(state, upper, k, e.key);
            assert forall|j: int| 0 <= j < k implies !has_key(#[trigger] parts[j], e.key) by {
                part_has_key(state, upper, j, e.key);
                if has_key(parts[j], e.key) {
                    let x = choose|x: Entry<KeyView>| #[trigger] held_at(state, upper, j, x) && x.key == e.key;
                    assert(held_at(state, upper, j, x) && j < k && x.key == e.key);
                }
            }
            assert(is_preferred(parts, k, e));
        }
        if !key_held(state, upper, e.key) {
            assert forall|i: int| 0 <= i < upper.len() implies !has_key(#[trigger] parts[i], e.key) by {
                part_has_key(state, upper, i, e.key);
                if has_key(parts[i], e.key) {
                    let x = choose|x: Entry<KeyView>| #[trigger] held_at(state, upper, i, x) && x.key == e.key;
                    assert(held_at(state, upper, i, x) && i < upper.len() && x.key == e.key);
                }
            }
        } else {
            let (k, x) = choose|k: int, x: Entry<KeyView>| #[trigger]
                held_at(state, upper, k, x) && k < upper.len() && x.key == e.key;
            part_has_key(state, upper, k, e.key);
            assert(has_key(parts[k], e.key));
        }
    }
}

proof fn level_over_is_read<T: Table>(state: LsmStorageState<T>, upper: Seq<usize>, lower: Seq<usize>)
    requires
        level_in_order(state, upper),
        level_in_order(state, lower),
    ensures
        sorted(state@.level_over(upper, lower)),
        forall|e: Entry<KeyView>| #[trigger]
            state@.level_over(upper, lower).contains(e) <==> read_level_over_level(state, upper, lower, e),
{
    level_is_sorted(state, upper);
    level_is_sorted(state, lower);
    level_over_prefers_upper(state@, upper, lower);
    list_is_held(state, upper);
    list_is_held(state, lower);
}

proof fn tiers_are_read<T: Table>(state: LsmStorageState<T>, tiers: Seq<(usize, Vec<usize>)>)
    requires
        forall|i: int| 0 <= i < tiers.len() ==> level_in_order(state, (#[trigger] tiers[i]).1@),
    ensures
        sorted(crate::merge::merge_all(state@.tier_contents(tiers))),
        forall|e: Entry<KeyView>| #[trigger]
            crate::merge::merge_all(state@.tier_contents(tiers)).contains(e) <==> read_from_tiers(state, tiers, e),
{
    let parts = state@.tier_contents(tiers);
    assert forall|i: int| 0 <= i < parts.len() implies sorted(#[trigger] parts[i]) by {
        level_is_sorted(state, tiers[i].1@);
    }
    merge_all_prefers_earlier(parts);
    assert forall|e: Entry<KeyView>| #[trigger] crate::merge::merge_all(parts).contains(e) <==> read_from_tiers(
        state,
        tiers,
        e,
    ) by {
        if exists|i: int| #[trigger] is_preferred(parts, i, e) {
            let i = choose|i: int| #[trigger] is_preferred(parts, i, e);
            list_is_held(state, tiers[i].1@);
            assert(held(state, tiers[i].1@, e));
            assert forall|u: int| 0 <= u < i implies !key_held(state, (#[trigger] tiers[u]).1@, e.key) by {
                list_is_held(state, tiers[u].1@);
                assert(!has_key(parts[u], e.key));
            }
        }
        if read_from_tiers(state, tiers, e) {
            let t = choose|t: int|
                0 <= t < tiers.len() && held(state, (#[trigger] tiers[t]).1@, e) && forall|u: int|
                    0 <= u < t ==> !key_held(state, (#[trigger] tiers[u]).1@, e.key);
            list_is_held(state, tiers[t].1@);
            assert(parts[t].contains(e));
            assert forall|u: int| 0 <= u < t implies !has_key(#[trigger] parts[u], e.key) by {
                list_is_held(state, tiers[u].1@);
                assert(!key_held(state, tiers[u].1@, e.key));
            }
            assert(is_preferred(parts, t, e));
        }
    }
}

/// The input of a compaction is in order, and holds the entries that the task asks for: those of every
/// table that it names, but for those whose key a preferred table has.
pub proof fn compaction_input_is_what_the_task_names<T: Table>(state: LsmStorageState<T>, task: CompactionTask)
    requires
        task_in_order(state, task),
    ensures
        in_order(state@.compaction_input(&task)),
        state@.compaction_input(&task).to_set() == task_entries(state, task),
{
    match task {
        CompactionTask::ForceFullCompaction { l0_sstables, l1_sstables } => {
            l0_over_is_read(state, l0_sstables@, l1_sstables@);
        },
        CompactionTask::Simple(t) => {
            if from_level(t.upper_level) {
                level_over_is_read(state, t.upper_level_sst_ids@, t.lower_level_sst_ids@);
            } else {
                l0_over_is_read(state, t.upper_level_sst_ids@, t.lower_level_sst_ids@);
            }
        },
        CompactionTask::Leveled(t) => {
            if from_level(t.upper_level) {
                level_over_is_read(state, t.upper_level_sst_ids@, t.lower_level_sst_ids@);
            } else {
                l0_over_is_read(state, t.upper_level_sst_ids@, t.lower_level_sst_ids@);
            }
        },
        CompactionTask::Tiered(t) => {
            tiers_are_read(state, t.tiers@);
        },
    }
    let input = state@.compaction_input(&task);
    in_order_is_sorted(input);
    assert forall|e: Entry<KeyView>| #[trigger] input.to_set().contains(e) <==> task_entries(state, task).contains(
        e,
    ) by {
        assert(input.to_set().contains(e) <==> input.contains(e));
    }
    assert(input.to_set() =~= task_entries(state, task));
}

/// A compaction writes what stays of the entries of all the tables that its task names.
pub proof fn compact_writes_what_stays_of_all_tables<B: TableBuilder, L, R, S>(
    inner: &mut LsmStorageInner<B, L, R, S>,
    task: CompactionTask,
    tables: Vec<Arc<B::Table>>,
)
    requires
        call_ensures(
            LsmStorageInner::<B, L, R, S>::compact,
            (inner, &task),
            Ok::<Vec<Arc<B::Table>>, StorageError>(tables),
        ),
        task_in_order(inner.state, task),
    ensures
        writes(*old(inner), task_entries(old(inner).state, task), writes_bottom(task), tables@),
        only_numbers_drawn(*old(inner), *final(inner)),
        final(inner).next_sst_id == number_after(old(inner).next_sst_id, tables@.len() as int),
{
    assert(tables@.len() == tables.len());
    let before = *inner;
    compaction_input_is_what_the_task_names(before.state, task);
    assert(task.reaches_bottom() == writes_bottom(task));
    compaction_of_sorted_input_writes(
        before,
        before.state@.compaction_input(&task),
        writes_bottom(task),
        tables@,
    );
    nth_id_counts_on(before.next_sst_id, tables@.len());
}

/// A newest place of a key on a list.
proof fn first_place_of_key<T: Table>(state: LsmStorageState<T>, ids: Seq<usize>, n: int, key: KeyView)
    requires
        key_held_before(state, ids, n, key),
    ensures
        exists|k: int, x: Entry<KeyView>| #[trigger]
            held_at(state, ids, k, x) && k < n && x.key == key && !key_held_before(state, ids, k, key),
    decreases n,
{
    let (k, x) = choose|k: int, x: Entry<KeyView>| #[trigger] held_at(state, ids, k, x) && k < n && x.key == key;
    if key_held_before(state, ids, k, key) {
        first_place_of_key(state, ids, k, key);
        let (l, y) = choose|l: int, y: Entry<KeyView>| #[trigger]
            held_at(state, ids, l, y) && l < k && y.key == key && !key_held_before(state, ids, l, key);
        assert(held_at(state, ids, l, y) && l < n && y.key == key && !key_held_before(state, ids, l, key));
    } else {
        assert(held_at(state, ids, k, x) && k < n && x.key == key && !key_held_before(state, ids, k, key));
    }
}

proof fn first_tier_of_key<T: Table>(state: LsmStorageState<T>, tiers: Seq<(usize, Vec<usize>)>, t: int, key: KeyView)
    requires
        0 <= t < tiers.len(),
        key_held(state, tiers[t].1@, key),
    ensures
        exists|e: Entry<KeyView>| #[trigger] read_from_tiers(state, tiers, e) && e.key == key,
    decreases t,
{
    if exists|u: int| 0 <= u < t && key_held(state, (#[trigger] tiers[u]).1@, key) {
        let u = choose|u: int| 0 <= u < t && key_held(state, (#[trigger] tiers[u]).1@, key);
        first_tier_of_key(state, tiers, u, key);
    } else {
        let ids = tiers[t].1@;
        let (k, x) = choose|k: int, x: Entry<KeyView>| #[trigger]
            held_at(state, ids, k, x) && k < ids.len() && x.key == key;
        assert(held(state, tiers[t].1@, x));
        assert(read_from_tiers(state, tiers, x));
    }
}

proof fn lists_keep_every_key<T: Table>(
    state: LsmStorageState<T>,
    upper: Seq<usize>,
    lower: Seq<usize>,
    id: usize,
    e: Entry<KeyView>,
)
    requires
        upper.contains(id) || lower.contains(id),
        entries_of(state, id).contains(e),
    ensures
        exists|x: Entry<KeyView>| #[trigger] read_over_level(state, upper, lower, x) && x.key == e.key,
        exists|x: Entry<KeyView>| #[trigger] read_level_over_level(state, upper, lower, x) && x.key == e.key,
{
    if upper.contains(id) {
        let k = choose|k: int| 0 <= k < upper.len() && upper[k] == id;
        assert(held_at(state, upper, k, e) && k < upper.len() && e.key == e.key);
    }
    if key_held(state, upper, e.key) {
        first_place_of_key(state, upper, upper.len() as int, e.key);
        let (l, y) = choose|l: int, y: Entry<KeyView>| #[trigger]
            held_at(state, upper, l, y) && l < upper.len() && y.key == e.key && !key_held_before(state, upper, l, e.key);
        assert(read_over_level(state, upper, lower, y));
        assert(held(state, upper, y));
        assert(read_level_over_level(state, upper, lower, y));
    } else {
        let k = choose|k: int| 0 <= k < lower.len() && lower[k] == id;
        assert(held_at(state, lower, k, e));
        assert(held(state, lower, e));
        assert(read_over_level(state, upper, lower, e));
        assert(read_level_over_level(state, upper, lower, e));
    }
}

/// No key of any table that a task names is left out of its input.
pub proof fn compaction_input_has_every_key<T: Table>(
    state: LsmStorageState<T>,
    task: CompactionTask,
    id: usize,
    e: Entry<KeyView>,
)
    requires
        task_in_order(state, task),
        names(task, id),
        entries_of(state, id).contains(e),
    ensures
        exists|x: Entry<KeyView>| #[trigger] state@.compaction_input(&task).contains(x) && x.key == e.key,
{
    compaction_input_is_what_the_task_names(state, task);
    let set = task_entries(state, task);
    assert(exists|x: Entry<KeyView>| #[trigger] set.contains(x) && x.key == e.key) by {
        match task {
            CompactionTask::ForceFullCompaction { l0_sstables, l1_sstables } => {
                lists_keep_every_key(state, l0_sstables@, l1_sstables@, id, e);
                let x = choose|x: Entry<KeyView>| #[trigger]
                    read_over_level(state, l0_sstables@, l1_sstables@, x) && x.key == e.key;
                assert(set.contains(x));
            },
            CompactionTask::Simple(t) => {
                lists_keep_every_key(state, t.upper_level_sst_ids@, t.lower_level_sst_ids@, id, e);
                let x = choose|x: Entry<KeyView>| #[trigger]
                    read_over_level(state, t.upper_level_sst_ids@, t.lower_level_sst_ids@, x) && x.key == e.key;
                let y = choose|x: Entry<KeyView>| #[trigger]
                    read_level_over_level(state, t.upper_level_sst_ids@, t.lower_level_sst_ids@, x) && x.key == e.key;
                assert(set.contains(x) || set.contains(y));
            },
            CompactionTask::Leveled(t) => {
                lists_keep_every_key(state, t.upper_level_sst_ids@, t.lower_level_sst_ids@, id, e);
                let x = choose|x: Entry<KeyView>| #[trigger]
                    read_over_level(state, t.upper_level_sst_ids@, t.lower_level_sst_ids@, x) && x.key == e.key;
                let y = choose|x: Entry<KeyView>| #[trigger]
                    read_level_over_level(state, t.upper_level_sst_ids@, t.lower_level_sst_ids@, x) && x.key == e.key;
                assert(set.contains(x) || set.contains(y));
            },
            CompactionTask::Tiered(t) => {
                let i = choose|i: int| 0 <= i < t.tiers@.len() && (#[trigger] t.tiers@[i]).1@.contains(id);
                let ids = t.tiers@[i].1@;
                let k = choose|k: int| 0 <= k < ids.len() && ids[k] == id;
                assert(held_at(state, ids, k, e) && k < ids.len() && e.key == e.key);
                first_tier_of_key(state, t.tiers@, i, e.key);
                let x = choose|x: Entry<KeyView>| #[trigger] read_from_tiers(state, t.tiers@, x) && x.key == e.key;
                assert(set.contains(x));
            },
        }
    }
    let x = choose|x: Entry<KeyView>| #[trigger] set.contains(x) && x.key == e.key;
    assert(state@.compaction_input(&task).to_set().contains(x));
    assert(state@.compaction_input(&task).contains(x));
}

/// A compaction reads the tables that its task names, and no others.
pub proof fn tasks_read_what_they_name(task: CompactionTask, id: usize)
    ensures
        task.reads(id) <==> names(task, id),
{
    if let CompactionTask::Tiered(t) = task {
        if names(task, id) {
            let i = choose|i: int| 0 <= i < t.tiers@.len() && (#[trigger] t.tiers@[i]).1@.contains(id);
            assert(t.tiers[i].1@.contains(id));
        }
        if task.reads(id) {
            let i = choose|i: int| 0 <= i < t.tiers.len() && (#[trigger] t.tiers[i]).1@.contains(id);
            assert(t.tiers@[i].1@.contains(id));
        }
    }
}

/// Whether deletions may be dropped is as the task says.
pub proof fn bottom_is_as_the_task_says(task: CompactionTask, bottom: bool)
    requires
        call_ensures(CompactionTask::compact_to_bottom_level, (&task,), bottom),
    ensures
        bottom == writes_bottom(task),
{
}

/// A compaction can be run where every table that its task names is there.
pub proof fn tasks_with_known_tables_are_accepted<B: TableBuilder, L, R, S>(
    inner: &mut LsmStorageInner<B, L, R, S>,
    task: CompactionTask,
)
    requires
        forall|id: usize| #[trigger] names(task, id) ==> inner.state.sstables@.contains_key(id),
    ensures
        call_requires(LsmStorageInner::<B, L, R, S>::compact, (inner, &task)),
{
    assert forall|id: usize| #[trigger] task.reads(id) implies inner.state@.sstables.contains_key(id) by {
        tasks_read_what_they_name(task, id);
    }
    inner.state@.known_tables_are_not_missed(&task);
}

/// All that the tables on the list hold, one after another.
pub open spec fn one_after_another<T: Table>(state: LsmStorageState<T>, ids: Seq<usize>) -> Seq<Entry<KeyView>> {
    Seq::new(ids.len(), |k: int| state.sstables@[ids[k]].entries()).flatten()
}

/// What each of the tables on the list holds.
pub open spec fn each<T: Table>(state: LsmStorageState<T>, ids: Seq<usize>) -> Seq<Seq<Entry<KeyView>>> {
    Seq::new(ids.len(), |k: int| state.sstables@[ids[k]].entries())
}

/// Whatever the order of their entries, the tables of L0 are merged with each other and with a level that
/// is read one table after another; of two levels each is read so and they are merged; and tiers are read
/// so and merged with each other.
pub proof fn compaction_input_is_merged<T: Table>(state: LsmStorageState<T>, task: CompactionTask)
    ensures
        match task {
            CompactionTask::ForceFullCompaction { l0_sstables, l1_sstables } => state@.compaction_input(&task)
                == crate::merge::merge(
                crate::merge::merge_all(each(state, l0_sstables@)),
                one_after_another(state, l1_sstables@),
            ),
            CompactionTask::Simple(t) => state@.compaction_input(&task) == crate::merge::merge(
                if t.upper_level is Some && t.upper_level->0 != 0 {
                    one_after_another(state, t.upper_level_sst_ids@)
                } else {
                    crate::merge::merge_all(each(state, t.upper_level_sst_ids@))
                },
                one_after_another(state, t.lower_level_sst_ids@),
            ),
            CompactionTask::Leveled(t) => state@.compaction_input(&task) == crate::merge::merge(
                if t.upper_level is Some && t.upper_level->0 != 0 {
                    one_after_another(state, t.upper_level_sst_ids@)
                } else {
                    crate::merge::merge_all(each(state, t.upper_level_sst_ids@))
                },
                one_after_another(state, t.lower_level_sst_ids@),
            ),
            CompactionTask::Tiered(t) => state@.compaction_input(&task) == crate::merge::merge_all(
                Seq::new(t.tiers@.len(), |i: int| one_after_another(state, t.tiers@[i].1@)),
            ),
        },
{
    assert forall|ids: Seq<usize>| #[trigger] each(state, ids) == contents(state@.tables(ids)) by {
        assert(each(state, ids) =~= contents(state@.tables(ids)));
    }
    assert forall|ids: Seq<usize>| #[trigger] one_after_another(state, ids) == contents(
        state@.tables(ids),
    ).flatten() by {
        assert(Seq::new(ids.len(), |k: int| state.sstables@[ids[k]].entries()) =~= contents(state@.tables(ids)));
    }
    if let CompactionTask::Tiered(t) = task {
        assert(Seq::new(t.tiers@.len(), |i: int| one_after_another(state, t.tiers@[i].1@)) =~= state@.tier_contents(
            t.tiers@,
        ));
    }
}

/// An entry of a tier that no newer tier has the key of is read, whichever tier it is in and whether or
/// not the task reaches the bottom.
pub proof fn every_tier_is_read<T: Table>(
    state: LsmStorageState<T>,
    task: crate::compact::TieredCompactionTask,
    t: int,
    k: int,
    e: Entry<KeyView>,
)
    requires
        forall|i: int| 0 <= i < task.tiers@.len() ==> level_in_order(state, (#[trigger] task.tiers@[i]).1@),
        0 <= t < task.tiers@.len(),
        0 <= k < task.tiers@[t].1@.len(),
        state.sstables@[task.tiers@[t].1@[k]].entries().contains(e),
        forall|u: int, l: int, x: Entry<KeyView>|
            0 <= u < t && 0 <= l < task.tiers@[u].1@.len()
                && #[trigger] state.sstables@[task.tiers@[u].1@[l]].entries().contains(x) ==> x.key != e.key,
    ensures
        state@.compaction_input(&CompactionTask::Tiered(task)).contains(e),
{
    let whole = CompactionTask::Tiered(task);
    compaction_input_is_what_the_task_names(state, whole);
    assert(held_at(state, task.tiers@[t].1@, k, e));
    assert(held(state, task.tiers@[t].1@, e));
    assert forall|u: int| 0 <= u < t implies !key_held(state, (#[trigger] task.tiers@[u]).1@, e.key) by {
        let ids = task.tiers@[u].1@;
        if key_held(state, ids, e.key) {
            let (l, x) = choose|l: int, x: Entry<KeyView>| #[trigger]
                held_at(state, ids, l, x) && l < ids.len() && x.key == e.key;
            assert(state.sstables@[task.tiers@[u].1@[l]].entries().contains(x));
        }
    }
    assert(read_from_tiers(state, task.tiers@, e));
    assert(task_entries(state, whole).contains(e));
    assert(state@.compaction_input(&whole).to_set().contains(e));
}

/// Where reading the tables on the list one after another breaks off.
pub open spec fn one_after_another_breaks<T: Table>(
    state: LsmStorageState<T>,
    ids: Seq<usize>,
) -> Option<crate::fault::Fault> {
    crate::fault::tables_fault(Seq::new(ids.len(), |k: int| state.sstables@[ids[k]]))
}

/// Where merging the tables on the list with each other breaks off.
pub open spec fn each_breaks<T: Table>(state: LsmStorageState<T>, ids: Seq<usize>) -> Option<crate::fault::Fault> {
    crate::fault::merge_all_fault(
        each(state, ids),
        Seq::new(ids.len(), |k: int| state.sstables@[ids[k]].fault()),
    )
}

/// Reading the input of a compaction breaks off as merging the tables in that way does.
pub proof fn compaction_fault_is_merged<T: Table>(state: LsmStorageState<T>, task: CompactionTask)
    ensures
        match task {
            CompactionTask::ForceFullCompaction { l0_sstables, l1_sstables } => state@.compaction_fault(&task)
                == crate::fault::merge_fault(
                crate::merge::merge_all(each(state, l0_sstables@)),
                each_breaks(state, l0_sstables@),
                one_after_another(state, l1_sstables@),
                one_after_another_breaks(state, l1_sstables@),
            ),
            CompactionTask::Simple(t) => state@.compaction_fault(&task) == if t.upper_level is Some && t.upper_level->0
                != 0 {
                crate::fault::merge_fault(
                    one_after_another(state, t.upper_level_sst_ids@),
                    one_after_another_breaks(state, t.upper_level_sst_ids@),
                    one_after_another(state, t.lower_level_sst_ids@),
                    one_after_another_breaks(state, t.lower_level_sst_ids@),
                )
            } else {
                crate::fault::merge_fault(
                    crate::merge::merge_all(each(state, t.upper_level_sst_ids@)),
                    each_breaks(state, t.upper_level_sst_ids@),
                    one_after_another(state, t.lower_level_sst_ids@),
                    one_after_another_breaks(state, t.lower_level_sst_ids@),
                )
            },
            CompactionTask::Leveled(t) => state@.compaction_fault(&task) == if t.upper_level is Some && t.upper_level->0
                != 0 {
                crate::fault::merge_fault(
                    one_after_another(state, t.upper_level_sst_ids@),
                    one_after_another_breaks(state, t.upper_level_sst_ids@),
                    one_after_another(state, t.lower_level_sst_ids@),
                    one_after_another_breaks(state, t.lower_level_sst_ids@),
                )
            } else {
                crate::fault::merge_fault(
                    crate::merge::merge_all(each(state, t.upper_level_sst_ids@)),
                    each_breaks(state, t.upper_level_sst_ids@),
                    one_after_another(state, t.lower_level_sst_ids@),
                    one_after_another_breaks(state, t.lower_level_sst_ids@),
                )
            },
            CompactionTask::Tiered(t) => state@.compaction_fault(&task) == crate::fault::merge_all_fault(
                Seq::new(t.tiers@.len(), |i: int| one_after_another(state, t.tiers@[i].1@)),
                Seq::new(t.tiers@.len(), |i: int| one_after_another_breaks(state, t.tiers@[i].1@)),
            ),
        },
{
    assert forall|ids: Seq<usize>| #[trigger] each(state, ids) == contents(state@.tables(ids)) by {
        assert(each(state, ids) =~= contents(state@.tables(ids)));
    }
    assert forall|ids: Seq<usize>| #[trigger] one_after_another(state, ids) == contents(
        state@.tables(ids),
    ).flatten() by {
        assert(Seq::new(ids.len(), |k: int| state.sstables@[ids[k]].entries()) =~= contents(state@.tables(ids)));
    }
    assert forall|ids: Seq<usize>| #[trigger] one_after_another_breaks(state, ids) == crate::fault::tables_fault(
        state@.tables(ids),
    ) by {
        assert(Seq::new(ids.len(), |k: int| state.sstables@[ids[k]]) =~= state@.tables(ids));
    }
    assert forall|ids: Seq<usize>| #[trigger] each_breaks(state, ids) == crate::fault::merge_all_fault(
        contents(state@.tables(ids)),
        crate::fault::table_faults(state@.tables(ids)),
    ) by {
        assert(each(state, ids) == contents(state@.tables(ids)));
        assert(Seq::new(ids.len(), |k: int| state.sstables@[ids[k]].fault()) =~= crate::fault::table_faults(
            state@.tables(ids),
        ));
    }
    if let CompactionTask::Tiered(t) = task {
        assert(Seq::new(t.tiers@.len(), |i: int| one_after_another(state, t.tiers@[i].1@)) =~= state@.tier_contents(
            t.tiers@,
        ));
        assert(Seq::new(t.tiers@.len(), |i: int| one_after_another_breaks(state, t.tiers@[i].1@))
            =~= state@.tier_faults(t.tiers@));
    }
}

} // verus!
