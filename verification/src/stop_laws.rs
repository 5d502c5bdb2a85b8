//! When compactions fail, and with which error.

use std::sync::Arc;

use vstd::prelude::*;

use crate::compact::CompactionTask;
use crate::fault::concat_fault;
use crate::fault::merge_all_fault;
use crate::fault::merge_fault;
use crate::fault::opening_error;
use crate::fault::table_faults;
use crate::fault::tables_fault;
use crate::fault::Fault;
use crate::key::KeyModel;
use crate::key::KeyView;
use crate::lsm_storage::Opening;
use crate::lsm_storage::StateView;
use crate::merge::merge_all;
use crate::merge::Entry;
use crate::retention::packed;
use crate::retention::packed_first;
use crate::retention::stop_stays;
use crate::retention::stopped;
use crate::retention::stopped_first;
use crate::retention::RetentionRules;
use crate::retention::Stop;
use crate::table::contents;
use crate::table::Table;

verus! {

/// A finished table stays as it is.
pub proof fn finished_stay(
    s: Seq<Entry<KeyView>>,
    m: int,
    n: int,
    rules: RetentionRules,
    target: usize,
    size: spec_fn(Seq<Entry<KeyView>>) -> usize,
)
    requires
        0 <= m <= n,
    ensures
        packed_first(s, m, rules, target, size).0.len() <= packed_first(s, n, rules, target, size).0.len(),
        packed_first(s, m, rules, target, size).0 == packed_first(s, n, rules, target, size).0.take(
            packed_first(s, m, rules, target, size).0.len() as int,
        ),
    decreases n,
{
    let first = packed_first(s, m, rules, target, size).0;
    let last = packed_first(s, n, rules, target, size).0;
    if m < n {
        finished_stay(s, m, n - 1, rules, target, size);
        let before = packed_first(s, n - 1, rules, target, size).0;
        assert(last.take(before.len() as int) =~= before);
        assert(last.take(first.len() as int) =~= before.take(first.len() as int));
    }
    assert(first =~= last.take(first.len() as int));
}

proof fn stop_draws_no_more_than_finished(
    s: Seq<Entry<KeyView>>,
    n: int,
    rules: RetentionRules,
    target: usize,
    size: spec_fn(Seq<Entry<KeyView>>) -> usize,
    fault: Option<Fault>,
    build_error: spec_fn(nat, Seq<Entry<KeyView>>) -> Option<Seq<char>>,
)
    requires
        0 <= n,
    ensures
        stopped_first(s, n, rules, target, size, fault, build_error) matches Some(stop) ==> stop.drawn
            <= packed_first(s, n, rules, target, size).0.len(),
    decreases n,
{
    if n > 0 {
        stop_draws_no_more_than_finished(s, n - 1, rules, target, size, fault, build_error);
        finished_stay(s, n - 1, n, rules, target, size);
    }
}

/// A compaction that fails has drawn no more numbers than it would have written tables.
pub proof fn stop_draws_no_more_than_tables(
    s: Seq<Entry<KeyView>>,
    rules: RetentionRules,
    target: usize,
    size: spec_fn(Seq<Entry<KeyView>>) -> usize,
    fault: Option<Fault>,
    build_error: spec_fn(nat, Seq<Entry<KeyView>>) -> Option<Seq<char>>,
)
    ensures
        stopped(s, rules, target, size, fault, build_error) matches Some(stop) ==> stop.drawn <= packed(
            s,
            rules,
            target,
            size,
        ).len(),
{
    stop_draws_no_more_than_finished(s, s.len() as int, rules, target, size, fault, build_error);
}

/// The first `n` entries can be passed where no step up to there breaks off and every table that is
/// finished by then can be built.
proof fn nothing_stops_first(
    s: Seq<Entry<KeyView>>,
    n: int,
    rules: RetentionRules,
    target: usize,
    size: spec_fn(Seq<Entry<KeyView>>) -> usize,
    fault: Option<Fault>,
    build_error: spec_fn(nat, Seq<Entry<KeyView>>) -> Option<Seq<char>>,
)
    requires
        0 <= n,
        fault matches Some(f) ==> n <= f.after,
        forall|i: int|
            0 <= i < packed_first(s, n, rules, target, size).0.len() ==> build_error(
                i as nat,
                #[trigger] packed_first(s, n, rules, target, size).0[i],
            ) is None,
    ensures
        stopped_first(s, n, rules, target, size, fault, build_error) is None,
    decreases n,
{
    if n > 0 {
        let before = packed_first(s, n - 1, rules, target, size).0;
        let now = packed_first(s, n, rules, target, size).0;
        finished_stay(s, n - 1, n, rules, target, size);
        assert forall|i: int| 0 <= i < before.len() implies build_error(i as nat, #[trigger] before[i]) is None by {
            assert(before[i] == now[i]);
        }
        nothing_stops_first(s, n - 1, rules, target, size, fault, build_error);
        if now.len() > before.len() {
            assert(build_error(before.len(), now[before.len() as int]) is None);
        }
    }
}

/// A compaction succeeds where reading its input does not break off and every one of its tables can be
/// built.
pub proof fn compaction_without_faults_succeeds(
    s: Seq<Entry<KeyView>>,
    rules: RetentionRules,
    target: usize,
    size: spec_fn(Seq<Entry<KeyView>>) -> usize,
    fault: Option<Fault>,
    build_error: spec_fn(nat, Seq<Entry<KeyView>>) -> Option<Seq<char>>,
)
    requires
        fault matches Some(f) ==> s.len() <= f.after,
        forall|i: int|
            0 <= i < packed(s, rules, target, size).len() ==> build_error(
                i as nat,
                #[trigger] packed(s, rules, target, size)[i],
            ) is None,
    ensures
        stopped(s, rules, target, size, fault, build_error) is None,
{
    let n = s.len() as int;
    let (finished, filling) = packed_first(s, n, rules, target, size);
    let tables = packed(s, rules, target, size);
    assert forall|i: int| 0 <= i < finished.len() implies build_error(i as nat, #[trigger] finished[i]) is None by {
        assert(tables[i] == finished[i]);
    }
    nothing_stops_first(s, n, rules, target, size, fault, build_error);
    assert(tables[finished.len() as int] == filling);
}

/// Where reading the input breaks off before its end, and the tables that are finished by then can be
/// built, the compaction ends in the error of the failing step, and has drawn a number for each of these
/// tables only.
pub proof fn failing_step_is_the_answer(
    s: Seq<Entry<KeyView>>,
    rules: RetentionRules,
    target: usize,
    size: spec_fn(Seq<Entry<KeyView>>) -> usize,
    fault: Fault,
    build_error: spec_fn(nat, Seq<Entry<KeyView>>) -> Option<Seq<char>>,
)
    requires
        fault.after < s.len(),
        forall|i: int|
            0 <= i < packed_first(s, fault.after as int + 1, rules, target, size).0.len() ==> build_error(
                i as nat,
                #[trigger] packed_first(s, fault.after as int + 1, rules, target, size).0[i],
            ) is None,
    ensures
        stopped(s, rules, target, size, Some(fault), build_error) == Some(
            Stop { error: fault.error, drawn: packed_first(s, fault.after as int + 1, rules, target, size).0.len() },
        ),
{
    let n = fault.after as int;
    let before = packed_first(s, n, rules, target, size).0;
    let now = packed_first(s, n + 1, rules, target, size).0;
    finished_stay(s, n, n + 1, rules, target, size);
    assert forall|i: int| 0 <= i < before.len() implies build_error(i as nat, #[trigger] before[i]) is None by {
        assert(before[i] == now[i]);
    }
    nothing_stops_first(s, n, rules, target, size, Some(fault), build_error);
    if now.len() > before.len() {
        assert(build_error(before.len(), now[before.len() as int]) is None);
    }
    assert(stopped_first(s, n + 1, rules, target, size, Some(fault), build_error) is Some);
    stop_stays(s, n + 1, s.len() as int, rules, target, size, Some(fault), build_error);
}

/// Opening tables one by one ends in the error of the first one that cannot be opened, whether or not
/// the tables behind it are there.
pub proof fn first_failing_table_is_the_answer<T: Table>(state: StateView<T>, ids: Seq<usize>, i: int)
    requires
        0 <= i < ids.len(),
        forall|j: int| 0 <= j <= i ==> state.sstables.contains_key(#[trigger] ids[j]),
        forall|j: int| 0 <= j < i ==> state.sstables[#[trigger] ids[j]].open_error() is None,
        state.sstables[ids[i]].open_error() is Some,
    ensures
        state.open_each(ids) == Opening::Failed(state.sstables[ids[i]].open_error()->0),
    decreases i,
{
    assert(state.sstables.contains_key(ids[0]));
    if i > 0 {
        let tail = ids.drop_first();
        assert forall|j: int| 0 <= j <= i - 1 implies state.sstables.contains_key(#[trigger] tail[j]) by {
            assert(tail[j] == ids[j + 1]);
        }
        assert forall|j: int| 0 <= j < i - 1 implies state.sstables[#[trigger] tail[j]].open_error() is None by {
            assert(tail[j] == ids[j + 1]);
        }
        assert(state.sstables[ids[0]].open_error() is None);
        first_failing_table_is_the_answer(state, tail, i - 1);
    }
}

/// The table can be opened and read to its end.
pub open spec fn sound<T: Table>(table: T) -> bool {
    table.open_error() is None && table.fault() is None
}

proof fn merge_without_faults<K: KeyModel>(a: Seq<Entry<K>>, b: Seq<Entry<K>>)
    ensures
        merge_fault(a, None, b, None) is None,
    decreases a.len() + b.len(),
{
    if a.len() > 0 {
        merge_without_faults(a.drop_first(), b);
    }
    if b.len() > 0 {
        merge_without_faults(a, b.drop_first());
    }
    if a.len() > 0 && b.len() > 0 {
        merge_without_faults(a.drop_first(), b.drop_first());
    }
}

proof fn merge_all_without_faults<K: KeyModel>(parts: Seq<Seq<Entry<K>>>, faults: Seq<Option<Fault>>)
    requires
        faults.len() == parts.len(),
        forall|i: int| 0 <= i < faults.len() ==> (#[trigger] faults[i]) is None,
    ensures
        merge_all_fault(parts, faults) is None,
    decreases parts.len(),
{
    if parts.len() > 0 {
        merge_all_without_faults(parts.drop_first(), faults.drop_first());
        assert(faults[0] is None);
        merge_without_faults(parts[0], merge_all(parts.drop_first()));
    }
}

proof fn concat_without_faults<T: Table>(entries: Seq<Entry<KeyView>>, tables: Seq<Arc<T>>)
    requires
        forall|i: int| 0 <= i < tables.len() ==> sound(*#[trigger] tables[i]),
    ensures
        opening_error(tables) is None,
        concat_fault(entries, None, tables) is None,
    decreases tables.len(), entries.len(),
{
    if tables.len() > 0 {
        let tail = tables.drop_first();
        assert(sound(*tables[0]));
        assert forall|i: int| 0 <= i < tail.len() implies sound(*#[trigger] tail[i]) by {
            assert(tail[i] == tables[i + 1]);
        }
        concat_without_faults(tables[0].entries(), tail);
    }
    if entries.len() > 0 {
        concat_without_faults(entries.drop_first(), tables);
    }
}

/// A list of tables that are all there and sound is opened and read without a fault.
proof fn sound_list<T: Table>(state: StateView<T>, ids: Seq<usize>)
    requires
        forall|id: usize| #[trigger] ids.contains(id) ==> state.sstables.contains_key(id) && sound(*state.sstables[id]),
    ensures
        state.open_each(ids) is Done,
        state.open_in_turn(ids) is Done,
        tables_fault(state.tables(ids)) is None,
        merge_all_fault(contents(state.tables(ids)), table_faults(state.tables(ids))) is None,
    decreases ids.len(),
{
    let tables = state.tables(ids);
    assert forall|i: int| 0 <= i < tables.len() implies sound(*#[trigger] tables[i]) by {
        assert(ids.contains(ids[i]));
    }
    assert forall|i: int| 0 <= i < ids.len() implies state.sstables.contains_key(#[trigger] ids[i]) by {
        assert(ids.contains(ids[i]));
    }
    concat_without_faults(Seq::empty(), tables);
    let faults = table_faults(tables);
    assert forall|i: int| 0 <= i < faults.len() implies (#[trigger] faults[i]) is None by {
        assert(sound(*tables[i]));
    }
    merge_all_without_faults(contents(tables), faults);
    if ids.len() > 0 {
        let tail = ids.drop_first();
        assert forall|id: usize| #[trigger] tail.contains(id) implies ids.contains(id) by {
            let i = choose|i: int| 0 <= i < tail.len() && tail[i] == id;
            assert(ids[i + 1] == id);
        }
        assert(ids.contains(ids[0]));
        sound_list(state, tail);
    }
}

proof fn sound_tiers<T: Table>(state: StateView<T>, tiers: Seq<(usize, Vec<usize>)>)
    requires
        forall|i: int, id: usize|
            0 <= i < tiers.len() && #[trigger] tiers[i].1@.contains(id) ==> state.sstables.contains_key(id) && sound(
                *state.sstables[id],
            ),
    ensures
        state.open_tiers(tiers) is Done,
        forall|i: int| 0 <= i < tiers.len() ==> (#[trigger] state.tier_faults(tiers)[i]) is None,
    decreases tiers.len(),
{
    assert forall|i: int| 0 <= i < tiers.len() implies (#[trigger] state.tier_faults(tiers)[i]) is None by {
        sound_list(state, tiers[i].1@);
    }
    if tiers.len() > 0 {
        let tail = tiers.drop_first();
        sound_list(state, tiers[0].1@);
        assert forall|i: int, id: usize| 0 <= i < tail.len() && #[trigger] tail[i].1@.contains(id) implies
            state.sstables.contains_key(id) && sound(*state.sstables[id]) by {
            assert(tail[i] == tiers[i + 1]);
            assert(tiers[i + 1].1@.contains(id));
        }
        sound_tiers(state, tail);
    }
}

/// Where every table that a task reads is there and sound, all of them are opened, and reading them does
/// not break off.
pub proof fn sound_tables_are_read<T: Table>(state: StateView<T>, task: &CompactionTask)
    requires
        forall|id: usize| #[trigger]
            task.reads(id) ==> state.sstables.contains_key(id) && sound(*state.sstables[id]),
    ensures
        state.opening(task) is Done,
        state.compaction_fault(task) is None,
{
    match task {
        CompactionTask::ForceFullCompaction { l0_sstables, l1_sstables } => {
            sound_two_lists(state, task, l0_sstables@, l1_sstables@);
        },
        CompactionTask::Simple(t) => {
            sound_two_lists(state, task, t.upper_level_sst_ids@, t.lower_level_sst_ids@);
        },
        CompactionTask::Leveled(t) => {
            sound_two_lists(state, task, t.upper_level_sst_ids@, t.lower_level_sst_ids@);
        },
        CompactionTask::Tiered(t) => {
            assert forall|i: int, id: usize| 0 <= i < t.tiers@.len() && #[trigger] t.tiers@[i].1@.contains(id) implies
                state.sstables.contains_key(id) && sound(*state.sstables[id]) by {
                assert(t.tiers[i].1@.contains(id));
                assert(task.reads(id));
            }
            sound_tiers(state, t.tiers@);
            merge_all_without_faults(state.tier_contents(t.tiers@), state.tier_faults(t.tiers@));
        },
    }
}

proof fn sound_two_lists<T: Table>(state: StateView<T>, task: &CompactionTask, upper: Seq<usize>, lower: Seq<usize>)
    requires
        forall|id: usize| #[trigger] task.reads(id) <==> upper.contains(id) || lower.contains(id),
        forall|id: usize| #[trigger]
            task.reads(id) ==> state.sstables.contains_key(id) && sound(*state.sstables[id]),
    ensures
        state.open_l0_over(upper, lower) is Done,
        state.open_level_over(upper, lower) is Done,
        state.l0_over_fault(upper, lower) is None,
        state.level_over_fault(upper, lower) is None,
{
    assert forall|id: usize| #[trigger] upper.contains(id) implies task.reads(id) by {}
    assert forall|id: usize| #[trigger] lower.contains(id) implies task.reads(id) by {}
    sound_list(state, upper);
    sound_list(state, lower);
    merge_without_faults(merge_all(contents(state.tables(upper))), contents(state.tables(lower)).flatten());
    merge_without_faults(contents(state.tables(upper)).flatten(), contents(state.tables(lower)).flatten());
}

} // verus!
