//! What compactions make of the levels, and what they leave as it was.

use std::sync::Arc;

use vstd::prelude::*;

use crate::key::KeyView;
use crate::lsm_storage::nth_id;
use crate::lsm_storage::with_tables;
use crate::lsm_storage::without_tables;
use crate::lsm_storage::LsmStorageInner;
use crate::lsm_storage::StateView;
use crate::merge::has_key;
use crate::merge::is_preferred;
use crate::merge::merge_all;
use crate::merge::merge_all_has_every_key;
use crate::merge::merge_all_prefers_earlier;
use crate::merge::merge_prefers_a;
use crate::merge::sorted;
use crate::merge::Entry;
use crate::retention::kept;
use crate::retention_laws::compaction_keeps_reads;
use crate::retention_laws::kept_is_sorted;
use crate::retention_laws::read;
use crate::retention_laws::tables_hold_kept;
use crate::table::contents;
use crate::table::ids;
use crate::table::Table;
use crate::table::TableBuilder;

verus! {

/// Numbers are counted on from one to the next.
pub proof fn nth_id_counts_on(id: usize, n: nat)
    requires
        n <= usize::MAX,
    ensures
        nth_id(id, n) == if id + n <= usize::MAX {
            id + n
        } else {
            id + n - usize::MAX - 1
        },
    decreases n,
{
    if n > 0 {
        nth_id_counts_on(id, (n - 1) as nat);
    }
}

/// The numbers that are taken in turn differ from each other, until they start over.
pub proof fn ids_taken_in_turn_differ(id: usize, m: nat, n: nat)
    requires
        m < n <= usize::MAX,
    ensures
        nth_id(id, m) != nth_id(id, n),
{
    nth_id_counts_on(id, m);
    nth_id_counts_on(id, n);
}

/// Tables that are put in under different numbers are found again, and leave the others alone.
pub proof fn put_tables_are_found<T: Table>(sstables: Map<usize, Arc<T>>, tables: Seq<Arc<T>>)
    requires
        ids(tables).no_duplicates(),
    ensures
        forall|i: int|
            0 <= i < tables.len() ==> with_tables(sstables, tables).contains_key((#[trigger] tables[i]).id())
                && with_tables(sstables, tables)[tables[i].id()] == tables[i],
        forall|id: usize|
            !ids(tables).contains(id) ==> (#[trigger] with_tables(sstables, tables).contains_key(id)
                <==> sstables.contains_key(id)),
        forall|id: usize|
            !ids(tables).contains(id) ==> #[trigger] with_tables(sstables, tables)[id] == sstables[id],
    decreases tables.len(),
{
    if tables.len() > 0 {
        let shorter = tables.drop_last();
        let last = tables.last();
        assert(ids(shorter) =~= ids(tables).drop_last());
        assert(ids(tables)[tables.len() - 1] == last.id());
        put_tables_are_found(sstables, shorter);
        let m = with_tables(sstables, shorter);
        assert forall|i: int| 0 <= i < tables.len() implies with_tables(sstables, tables).contains_key(
            (#[trigger] tables[i]).id(),
        ) && with_tables(sstables, tables)[tables[i].id()] == tables[i] by {
            if i < shorter.len() {
                assert(shorter[i] == tables[i]);
                assert(ids(tables)[i] != ids(tables)[tables.len() - 1]);
            }
        }
        assert forall|id: usize| !ids(tables).contains(id) implies !ids(shorter).contains(id) && id != last.id() by {
            if ids(shorter).contains(id) {
                let j = choose|j: int| 0 <= j < ids(shorter).len() && ids(shorter)[j] == id;
                assert(ids(tables)[j] == id);
            }
        }
    }
}

/// The tables that a compaction writes have numbers that differ from each other.
pub proof fn compacted_tables_have_different_ids<B: TableBuilder, L, R, S>(
    inner: LsmStorageInner<B, L, R, S>,
    input: Seq<Entry<KeyView>>,
    bottom: bool,
    tables: Seq<Arc<B::Table>>,
)
    requires
        inner.compacts_to(input, bottom, tables),
        tables.len() <= usize::MAX,
    ensures
        ids(tables).no_duplicates(),
{
    assert forall|i: int, j: int| 0 <= i < j < tables.len() implies ids(tables)[i] != ids(tables)[j] by {
        assert(tables[i].id() == nth_id(inner.next_sst_id, i as nat));
        assert(tables[j].id() == nth_id(inner.next_sst_id, j as nat));
        ids_taken_in_turn_differ(inner.next_sst_id, i as nat, j as nat);
    }
}

/// What L0 holds over a level comes in order, and is what one reads who looks through the tables of
/// L0 from the newest to the oldest and then into the level: an entry is in it where the first of
/// them that has its key has this entry.
pub proof fn l0_over_prefers_newer<T: Table>(state: StateView<T>, upper: Seq<usize>, lower: Seq<usize>)
    requires
        forall|i: int| 0 <= i < upper.len() ==> sorted((#[trigger] state.tables(upper)[i]).entries()),
        sorted(contents(state.tables(lower)).flatten()),
    ensures
        sorted(state.l0_over(upper, lower)),
        forall|e: Entry<KeyView>| #[trigger]
            state.l0_over(upper, lower).contains(e) <==> {
                ||| exists|i: int| #[trigger] is_preferred(contents(state.tables(upper)), i, e)
                ||| {
                    &&& contents(state.tables(lower)).flatten().contains(e)
                    &&& forall|i: int|
                        0 <= i < upper.len() ==> !has_key(#[trigger] contents(state.tables(upper))[i], e.key)
                }
            },
{
    let parts = contents(state.tables(upper));
    let below = contents(state.tables(lower)).flatten();
    assert forall|i: int| 0 <= i < parts.len() implies sorted(#[trigger] parts[i]) by {
        assert(parts[i] == state.tables(upper)[i].entries());
    }
    merge_all_prefers_earlier(parts);
    merge_prefers_a(merge_all(parts), below);
    assert forall|e: Entry<KeyView>| #[trigger] state.l0_over(upper, lower).contains(e) <==> {
        ||| exists|i: int| #[trigger] is_preferred(parts, i, e)
        ||| below.contains(e) && forall|i: int| 0 <= i < upper.len() ==> !has_key(#[trigger] parts[i], e.key)
    } by {
        merge_all_has_every_key(parts, e.key);
        if has_key(merge_all(parts), e.key) {
            let j = choose|j: int| 0 <= j < parts.len() && has_key(#[trigger] parts[j], e.key);
            assert(has_key(parts[j], e.key));
        }
    }
}

/// What one level holds over another comes in order; the upper one is preferred.
pub proof fn level_over_prefers_upper<T: Table>(state: StateView<T>, upper: Seq<usize>, lower: Seq<usize>)
    requires
        sorted(contents(state.tables(upper)).flatten()),
        sorted(contents(state.tables(lower)).flatten()),
    ensures
        sorted(state.level_over(upper, lower)),
        forall|e: Entry<KeyView>| #[trigger]
            state.level_over(upper, lower).contains(e) <==> {
                ||| contents(state.tables(upper)).flatten().contains(e)
                ||| contents(state.tables(lower)).flatten().contains(e) && !has_key(
                    contents(state.tables(upper)).flatten(),
                    e.key,
                )
            },
{
    merge_prefers_a(contents(state.tables(upper)).flatten(), contents(state.tables(lower)).flatten());
}

/// The tables that a compaction makes of a sorted input, read one after another, are sorted, so that
/// they can serve as a level.
pub proof fn compacted_tables_are_sorted<B: TableBuilder, L, R, S>(
    inner: LsmStorageInner<B, L, R, S>,
    input: Seq<Entry<KeyView>>,
    bottom: bool,
    tables: Seq<Arc<B::Table>>,
)
    requires
        inner.compacts_to(input, bottom, tables),
        sorted(input),
    ensures
        sorted(contents(tables).flatten()),
        contents(tables).flatten() == kept(input, inner.retention(bottom)),
{
    tables_hold_kept(input, inner.retention(bottom), inner.options.target_sst_size, inner.size_estimate());
    kept_is_sorted(input, inner.retention(bottom));
}

/// After a full compaction L0 and the first level hold what the compaction kept of what they held
/// before.
pub proof fn full_compaction_leaves_kept<B: TableBuilder, L, R, S>(
    inner: LsmStorageInner<B, L, R, S>,
    tables: Seq<Arc<B::Table>>,
)
    requires
        inner.state@.levels.len() > 0,
        inner.compacts_to(inner.state@.l0_over(inner.state@.l0_sstables, inner.state@.levels[0].1), true, tables),
        tables.len() <= usize::MAX,
    ensures
        ({
            let before = inner.state@;
            let after = before.after_full_compaction(tables);
            after.l0_over(after.l0_sstables, after.levels[0].1) == kept(
                before.l0_over(before.l0_sstables, before.levels[0].1),
                inner.retention(true),
            )
        }),
{
    let before = inner.state@;
    let after = before.after_full_compaction(tables);
    let input = before.l0_over(before.l0_sstables, before.levels[0].1);
    compacted_tables_have_different_ids(inner, input, true, tables);
    put_tables_are_found(without_tables(before.sstables, before.l0_sstables + before.levels[0].1), tables);
    assert(after.levels[0].1 == ids(tables));
    assert(after.tables(ids(tables)) =~= tables) by {
        assert forall|i: int| 0 <= i < tables.len() implies #[trigger] after.tables(ids(tables))[i] == tables[i] by {
            assert(ids(tables)[i] == tables[i].id());
        }
    }
    assert(contents(after.tables(after.l0_sstables)) =~= Seq::empty());
    assert(merge_all(contents(after.tables(after.l0_sstables))) =~= Seq::<Entry<KeyView>>::empty());
    tables_hold_kept(input, inner.retention(true), inner.options.target_sst_size, inner.size_estimate());
}

/// A full compaction does not change what a reader at or above the watermark reads from L0 and the
/// first level, of any user key that no filter gives up.
pub proof fn full_compaction_keeps_reads<B: TableBuilder, L, R, S>(
    inner: LsmStorageInner<B, L, R, S>,
    tables: Seq<Arc<B::Table>>,
    key: Seq<u8>,
    ts: u64,
)
    requires
        inner.state@.levels.len() > 0,
        inner.compacts_to(inner.state@.l0_over(inner.state@.l0_sstables, inner.state@.levels[0].1), true, tables),
        tables.len() <= usize::MAX,
        sorted(inner.state@.l0_over(inner.state@.l0_sstables, inner.state@.levels[0].1)),
        ts >= inner.watermark,
        !inner.retention(true).filters(key),
    ensures
        ({
            let before = inner.state@;
            let after = before.after_full_compaction(tables);
            read(after.l0_over(after.l0_sstables, after.levels[0].1), key, ts) == read(
                before.l0_over(before.l0_sstables, before.levels[0].1),
                key,
                ts,
            )
        }),
{
    let before = inner.state@;
    full_compaction_leaves_kept(inner, tables);
    compaction_keeps_reads(
        before.l0_over(before.l0_sstables, before.levels[0].1),
        inner.retention(true),
        key,
        ts,
    );
}

/// Every table that a level lists is there.
pub open spec fn all_levels_known<T: Table>(state: StateView<T>) -> bool {
    &&& state.knows(state.l0_sstables)
    &&& forall|l: int| 0 <= l < state.levels.len() ==> state.knows((#[trigger] state.levels[l]).1)
}

/// After a full compaction every table that a level lists is there, if it was so before and the
/// deeper levels share no table with those compacted. Of the compacted tables none is left, but for
/// those whose numbers were given out again.
pub proof fn full_compaction_keeps_levels_known<T: Table>(before: StateView<T>, tables: Seq<Arc<T>>)
    requires
        before.levels.len() > 0,
        all_levels_known(before),
        ids(tables).no_duplicates(),
        forall|l: int, i: int|
            0 < l < before.levels.len() && 0 <= i < before.levels[l].1.len() ==> !(before.l0_sstables
                + before.levels[0].1).contains(#[trigger] before.levels[l].1[i]),
    ensures
        all_levels_known(before.after_full_compaction(tables)),
        forall|id: usize|
            (before.l0_sstables + before.levels[0].1).contains(id) && !ids(tables).contains(id)
                ==> !(#[trigger] before.after_full_compaction(tables).sstables.contains_key(id)),
{
    let after = before.after_full_compaction(tables);
    let gone = before.l0_sstables + before.levels[0].1;
    let left = without_tables(before.sstables, gone);
    put_tables_are_found(left, tables);
    assert forall|l: int| 0 <= l < after.levels.len() implies after.knows((#[trigger] after.levels[l]).1) by {
        let listed = after.levels[l].1;
        assert forall|i: int| 0 <= i < listed.len() implies after.sstables.contains_key(#[trigger] listed[i]) by {
            if l == 0 {
                assert(listed[i] == tables[i].id());
            } else {
                assert(before.knows(before.levels[l].1));
                assert(!gone.contains(before.levels[l].1[i]));
                if ids(tables).contains(listed[i]) {
                    let j = choose|j: int| 0 <= j < ids(tables).len() && ids(tables)[j] == listed[i];
                    assert(tables[j].id() == listed[i]);
                }
            }
        }
    }
}

} // verus!
