//! What compactions write, in terms of the entries that they read.

use std::sync::Arc;

use vstd::prelude::*;

use crate::compact::CompactionFilter;
use crate::error::StorageError;
use crate::iterators::StorageIterator;
use crate::key::KeyModel;
use crate::key::KeySlice;
use crate::key::KeyView;
use crate::key_laws::bytes_are_ordered_lexicographically;
use crate::key_laws::keys_are_ordered_newest_first;
use crate::key_laws::lexicographic;
use crate::key_laws::sorts_before;
use crate::lsm_storage::prefixes;
use crate::lsm_storage::LsmStorageInner;
use crate::merge::sorted;
use crate::merge::Entry;
use crate::retention::kept;
use crate::retention::kept_at;
use crate::retention::one_run;
use crate::retention::packed;
use crate::retention::packed_first;
use crate::retention::starts_run;
use crate::retention::superseded;
use crate::retention::RetentionRules;
use crate::retention_laws::kept_are_from_the_input;
use crate::retention_laws::kept_is_sorted;
use crate::retention_laws::tables_hold_kept;
use crate::retention_laws::tables_reach_target;
use crate::retention_laws::tables_split_between_user_keys;
use crate::retention_laws::versions_are_one_run;
use crate::storage_laws::nth_id_counts_on;
use crate::table::contents;
use crate::table::Table;
use crate::table::TableBuilder;

verus! {

/// The keys come in order, each of them once.
pub open spec fn in_order(s: Seq<Entry<KeyView>>) -> bool {
    forall|i: int, j: int| 0 <= i < j < s.len() ==> sorts_before((#[trigger] s[i]).key, (#[trigger] s[j]).key)
}

pub proof fn in_order_is_sorted(s: Seq<Entry<KeyView>>)
    ensures
        in_order(s) <==> sorted(s),
{
    if in_order(s) {
        assert forall|i: int, j: int| 0 <= i < j < s.len() implies (#[trigger] s[i]).key.before(
            (#[trigger] s[j]).key,
        ) by {
            keys_are_ordered_newest_first(s[i].key, s[j].key);
        }
    }
    if sorted(s) {
        assert forall|i: int, j: int| 0 <= i < j < s.len() implies sorts_before(
            (#[trigger] s[i]).key,
            (#[trigger] s[j]).key,
        ) by {
            keys_are_ordered_newest_first(s[i].key, s[j].key);
        }
    }
}

/// No entry of the input at or below the watermark is a newer version of the same user key.
pub open spec fn newest_settled(input: Set<Entry<KeyView>>, watermark: u64, e: Entry<KeyView>) -> bool {
    forall|x: Entry<KeyView>| #[trigger]
        input.contains(x) && x.key.key == e.key.key && x.key.ts <= watermark ==> x.key.ts <= e.key.ts
}

/// A filter names the front of the user key.
pub open spec fn named_by_filter(filters: Seq<CompactionFilter>, key: Seq<u8>) -> bool {
    exists|f: int|
        0 <= f < filters.len() && (#[trigger] filters[f])->Prefix_0@.len() <= key.len() && filters[f]->Prefix_0@
            == key.take(filters[f]->Prefix_0@.len() as int)
}

/// A compaction of the input keeps the entry: all versions above the watermark, and of those at or below
/// it the newest, unless that is a deletion and nothing lies below, or a filter names its user key.
pub open spec fn stays(
    input: Set<Entry<KeyView>>,
    bottom: bool,
    watermark: u64,
    filters: Seq<CompactionFilter>,
    e: Entry<KeyView>,
) -> bool {
    input.contains(e) && (e.key.ts > watermark || {
        &&& newest_settled(input, watermark, e)
        &&& !(bottom && e.value.len() == 0)
        &&& !named_by_filter(filters, e.key.key)
    })
}

/// All that the tables hold, one after another.
pub open spec fn concatenated<T: Table>(tables: Seq<Arc<T>>) -> Seq<Entry<KeyView>> {
    Seq::new(tables.len(), |i: int| tables[i].entries()).flatten()
}

/// The entry at `p` is the first one of its user key in the table.
pub open spec fn starts_user_key(entries: Seq<Entry<KeyView>>, p: int) -> bool {
    0 <= p < entries.len() && (p > 0 ==> entries[p - 1].key.key != entries[p].key.key)
}

/// The number that is `n` further on; after the last one they start over.
pub open spec fn number_after(id: usize, n: int) -> int {
    if id + n <= usize::MAX {
        id + n
    } else {
        id + n - usize::MAX - 1
    }
}

/// The tables are cut where a user key starts once the size estimated has reached the target, and
/// nowhere else. There is always a table, and only the first one may be empty.
pub open spec fn cut_at_target<B: TableBuilder>(block_size: usize, target: usize, tables: Seq<Arc<B::Table>>) -> bool {
    &&& tables.len() >= 1
    &&& forall|t: int| 0 < t < tables.len() ==> (#[trigger] tables[t]).entries().len() > 0
    &&& forall|t: int|
        0 <= t < tables.len() - 1 ==> B::size_of(block_size, (#[trigger] tables[t]).entries()) >= target
    &&& forall|t: int, p: int|
        0 <= t < tables.len() && (p > 0 || t == 0) && #[trigger] starts_user_key(tables[t].entries(), p)
            ==> B::size_of(block_size, tables[t].entries().take(p)) < target
    &&& forall|t: int, u: int, p: int, q: int|
        0 <= t < u < tables.len() && 0 <= p < tables[t].entries().len() && 0 <= q < tables[u].entries().len()
            ==> lexicographic(
            (#[trigger] tables[t].entries()[p]).key.key,
            (#[trigger] tables[u].entries()[q]).key.key,
        )
}

/// The tables are what a compaction of the input writes.
pub open spec fn writes<B: TableBuilder, L, R, S>(
    inner: LsmStorageInner<B, L, R, S>,
    input: Set<Entry<KeyView>>,
    bottom: bool,
    tables: Seq<Arc<B::Table>>,
) -> bool {
    &&& in_order(concatenated(tables))
    &&& forall|e: Entry<KeyView>| #[trigger]
        concatenated(tables).contains(e) <==> stays(input, bottom, inner.watermark, inner.compaction_filters@, e)
    &&& cut_at_target::<B>(inner.options.block_size, inner.options.target_sst_size, tables)
    &&& forall|t: int| 0 <= t < tables.len() ==> (#[trigger] tables[t]).id() == number_after(inner.next_sst_id, t)
}

/// Only the number that the next table gets may differ.
pub open spec fn only_numbers_drawn<B: TableBuilder, L, R, S>(
    before: LsmStorageInner<B, L, R, S>,
    after: LsmStorageInner<B, L, R, S>,
) -> bool {
    &&& after.state == before.state
    &&& after.options == before.options
    &&& after.compaction_controller == before.compaction_controller
    &&& after.compaction_filters == before.compaction_filters
    &&& after.watermark == before.watermark
    &&& after.store == before.store
}

proof fn filters_are_named(filters: Seq<CompactionFilter>, rules: RetentionRules, key: Seq<u8>)
    requires
        rules.prefixes == prefixes(filters),
    ensures
        rules.filters(key) <==> named_by_filter(filters, key),
{
    if rules.filters(key) {
        let p = choose|p: int| 0 <= p < rules.prefixes.len() && #[trigger] rules.prefixes[p].is_prefix_of(key);
        assert(filters[p]->Prefix_0@ == rules.prefixes[p]);
        assert(rules.prefixes[p] =~= key.take(rules.prefixes[p].len() as int));
    }
    if named_by_filter(filters, key) {
        let f = choose|f: int|
            0 <= f < filters.len() && (#[trigger] filters[f])->Prefix_0@.len() <= key.len() && filters[f]->Prefix_0@
                == key.take(filters[f]->Prefix_0@.len() as int);
        assert(rules.prefixes[f] == filters[f]->Prefix_0@);
        assert(rules.prefixes[f] =~= key.subrange(0, rules.prefixes[f].len() as int));
        assert(rules.prefixes[f].is_prefix_of(key));
    }
}

/// In a sorted input an entry at or below the watermark is superseded where it is not the newest such.
proof fn superseded_by_newer(s: Seq<Entry<KeyView>>, i: int, watermark: u64)
    requires
        sorted(s),
        0 <= i < s.len(),
        s[i].key.ts <= watermark,
    ensures
        superseded(s, i, watermark) <==> !newest_settled(s.to_set(), watermark, s[i]),
{
    let e = s[i];
    if superseded(s, i, watermark) {
        let j = choose|j: int| 0 <= j < i && #[trigger] one_run(s, j, i) && s[j].key.ts <= watermark;
        assert(s[j].key.key == e.key.key);
        assert(s[j].key.before(e.key));
        if crate::key::bytes_before(s[j].key.key, e.key.key) {
            crate::key::bytes_before_is_asymmetric(s[j].key.key, e.key.key);
        }
        assert(s.to_set().contains(s[j]));
    }
    if !newest_settled(s.to_set(), watermark, e) {
        let x = choose|x: Entry<KeyView>| #[trigger]
            s.to_set().contains(x) && x.key.key == e.key.key && x.key.ts <= watermark && x.key.ts > e.key.ts;
        let j = choose|j: int| 0 <= j < s.len() && s[j] == x;
        if j > i {
            assert(e.key.before(x.key));
            KeyView::before_is_asymmetric(e.key, x.key);
        }
        versions_are_one_run(s, j, i);
        assert(one_run(s, j, i));
    }
}

/// What a compaction keeps of a sorted input are the entries that stay.
proof fn kept_are_those_that_stay(
    s: Seq<Entry<KeyView>>,
    rules: RetentionRules,
    filters: Seq<CompactionFilter>,
    e: Entry<KeyView>,
)
    requires
        sorted(s),
        rules.prefixes == prefixes(filters),
    ensures
        kept(s, rules).contains(e) <==> stays(s.to_set(), rules.bottom, rules.watermark, filters, e),
{
    kept_are_from_the_input(s, rules, e);
    filters_are_named(filters, rules, e.key.key);
    if s.contains(e) {
        let i = choose|i: int| 0 <= i < s.len() && s[i] == e;
        if e.key.ts <= rules.watermark {
            superseded_by_newer(s, i, rules.watermark);
        }
        if stays(s.to_set(), rules.bottom, rules.watermark, filters, e) {
            assert(0 <= i < s.len() && s[i] == e && kept_at(s, i, rules));
        }
        if kept(s, rules).contains(e) {
            let m = choose|m: int| 0 <= m < s.len() && #[trigger] s[m] == e && kept_at(s, m, rules);
            if e.key.ts <= rules.watermark {
                superseded_by_newer(s, m, rules.watermark);
            }
        }
    } else {
        assert(!s.to_set().contains(e));
        if kept(s, rules).contains(e) {
            let m = choose|m: int| 0 <= m < s.len() && #[trigger] s[m] == e && kept_at(s, m, rules);
            assert(s.contains(s[m]));
        }
    }
}

/// Every user key in the table but those that a size below the target comes before.
spec fn filled_below_target(
    part: Seq<Entry<KeyView>>,
    first: bool,
    target: usize,
    size: spec_fn(Seq<Entry<KeyView>>) -> usize,
) -> bool {
    forall|p: int| (p > 0 || first) && #[trigger] starts_user_key(part, p) ==> size(part.take(p)) < target
}

spec fn filled_parts(
    finished: Seq<Seq<Entry<KeyView>>>,
    filling: Seq<Entry<KeyView>>,
    target: usize,
    size: spec_fn(Seq<Entry<KeyView>>) -> usize,
) -> bool {
    &&& forall|t: int| 0 <= t < finished.len() ==> filled_below_target(#[trigger] finished[t], t == 0, target, size)
    &&& filled_below_target(filling, finished.len() == 0, target, size)
    &&& forall|t: int| 0 < t < finished.len() ==> (#[trigger] finished[t]).len() > 0
    &&& finished.len() > 0 ==> filling.len() > 0
}

proof fn packed_first_is_filled(
    s: Seq<Entry<KeyView>>,
    n: int,
    rules: RetentionRules,
    target: usize,
    size: spec_fn(Seq<Entry<KeyView>>) -> usize,
)
    requires
        sorted(s),
        0 <= n <= s.len(),
    ensures
        ({
            let (finished, filling) = packed_first(s, n, rules, target, size);
            &&& filled_parts(finished, filling, target, size)
            &&& n > 0 && kept_at(s, n - 1, rules) ==> filling.len() > 0 && filling.last() == s[n - 1]
        }),
    decreases n,
{
    if n > 0 {
        packed_first_is_filled(s, n - 1, rules, target, size);
        let (finished, filling) = packed_first(s, n - 1, rules, target, size);
        let (finished1, filling1) = packed_first(s, n, rules, target, size);
        let x = s[n - 1];
        if kept_at(s, n - 1, rules) {
            // A version whose predecessor belongs to the same user key is kept only with that.
            if !starts_run(s, n - 1) {
                let y = s[n - 2];
                assert(y.key.before(x.key));
                assert(y.key.key == x.key.key);
                if crate::key::bytes_before(y.key.key, x.key.key) {
                    crate::key::bytes_before_is_asymmetric(y.key.key, x.key.key);
                }
                if y.key.ts <= rules.watermark {
                    assert(one_run(s, n - 2, n - 1));
                    assert(superseded(s, n - 1, rules.watermark));
                }
                assert(kept_at(s, n - 2, rules));
                assert(filling.last() == y);
            }
            if starts_run(s, n - 1) && size(filling) >= target {
                assert forall|t: int| 0 <= t < finished1.len() implies filled_below_target(
                    #[trigger] finished1[t],
                    t == 0,
                    target,
                    size,
                ) by {
                    if t < finished.len() {
                        assert(finished1[t] == finished[t]);
                    }
                }
                assert forall|t: int| 0 < t < finished1.len() implies (#[trigger] finished1[t]).len() > 0 by {
                    if t < finished.len() {
                        assert(finished1[t] == finished[t]);
                    }
                }
            } else {
                assert forall|p: int| (p > 0 || finished1.len() == 0) && #[trigger] starts_user_key(filling1, p) implies size(
                    filling1.take(p),
                ) < target by {
                    if p < filling.len() {
                        assert(filling1[p] == filling[p]);
                        if p > 0 {
                            assert(filling1[p - 1] == filling[p - 1]);
                        }
                        assert(starts_user_key(filling, p));
                        assert(filling1.take(p) =~= filling.take(p));
                    } else {
                        assert(filling1.take(p) =~= filling);
                        if !starts_run(s, n - 1) {
                            assert(filling1[p - 1] == filling.last());
                        }
                    }
                }
            }
        }
    } else {
        let (finished, filling) = packed_first(s, n, rules, target, size);
        assert(filled_below_target(filling, true, target, size));
    }
}

/// The tables that stand for a compaction of a sorted input are what it writes.
pub proof fn compaction_of_sorted_input_writes<B: TableBuilder, L, R, S>(
    inner: LsmStorageInner<B, L, R, S>,
    s: Seq<Entry<KeyView>>,
    bottom: bool,
    tables: Seq<Arc<B::Table>>,
)
    requires
        inner.compacts_to(s, bottom, tables),
        in_order(s),
        tables.len() <= usize::MAX,
    ensures
        writes(inner, s.to_set(), bottom, tables),
{
    let rules = inner.retention(bottom);
    let target = inner.options.target_sst_size;
    let size = inner.size_estimate();
    let parts = packed(s, rules, target, size);
    in_order_is_sorted(s);
    tables_hold_kept(s, rules, target, size);
    kept_is_sorted(s, rules);
    in_order_is_sorted(kept(s, rules));
    assert(Seq::new(tables.len(), |i: int| tables[i].entries()) =~= contents(tables));
    assert(concatenated(tables) == kept(s, rules));
    assert forall|e: Entry<KeyView>| #[trigger] concatenated(tables).contains(e) <==> stays(
        s.to_set(),
        bottom,
        inner.watermark,
        inner.compaction_filters@,
        e,
    ) by {
        kept_are_those_that_stay(s, rules, inner.compaction_filters@, e);
    }
    assert forall|t: int| 0 <= t < tables.len() implies #[trigger] parts[t] == tables[t].entries() by {
        assert(contents(tables)[t] == tables[t].entries());
    }
    assert forall|t: int| 0 <= t < tables.len() implies (#[trigger] tables[t]).id() == number_after(
        inner.next_sst_id,
        t,
    ) by {
        nth_id_counts_on(inner.next_sst_id, t as nat);
    }
    packed_first_is_filled(s, s.len() as int, rules, target, size);
    let (finished, filling) = packed_first(s, s.len() as int, rules, target, size);
    assert(parts == finished.push(filling));
    assert forall|t: int| 0 < t < tables.len() implies (#[trigger] tables[t]).entries().len() > 0 by {
        assert(parts[t] == tables[t].entries());
        if t < finished.len() {
            assert(finished[t] == parts[t]);
        }
    }
    assert forall|t: int| 0 <= t < tables.len() - 1 implies B::size_of(
        inner.options.block_size,
        (#[trigger] tables[t]).entries(),
    ) >= target by {
        tables_reach_target(s, rules, target, size, t);
        assert(parts[t] == tables[t].entries());
        assert(size(parts[t]) == B::size_of(inner.options.block_size, parts[t]));
    }
    assert forall|t: int, p: int|
        0 <= t < tables.len() && (p > 0 || t == 0) && #[trigger] starts_user_key(
            tables[t].entries(),
            p,
        ) implies B::size_of(inner.options.block_size, tables[t].entries().take(p)) < target by {
        assert(parts[t] == tables[t].entries());
        if t < finished.len() {
            assert(finished[t] == parts[t]);
        }
        assert(starts_user_key(parts[t], p));
        assert(size(parts[t].take(p)) == B::size_of(inner.options.block_size, parts[t].take(p)));
    }
    assert forall|t: int, u: int, p: int, q: int|
        0 <= t < u < tables.len() && 0 <= p < tables[t].entries().len() && 0 <= q
            < tables[u].entries().len() implies lexicographic(
        (#[trigger] tables[t].entries()[p]).key.key,
        (#[trigger] tables[u].entries()[q]).key.key,
    ) by {
        assert(parts[t] == tables[t].entries());
        assert(parts[u] == tables[u].entries());
        tables_split_between_user_keys(s, rules, target, size, t, u);
        bytes_are_ordered_lexicographically(parts[t][p].key.key, parts[u][q].key.key);
    }
}

/// Of entries that come in order, a compaction writes those that stay, in order, into tables that are
/// cut at the target size.
pub proof fn compacting_a_sorted_stream_writes_what_stays<
    B: TableBuilder,
    L,
    R,
    S,
    I: for<'a> StorageIterator<Model = KeyView, KeyType<'a> = KeySlice<'a>>,
>(inner: &mut LsmStorageInner<B, L, R, S>, iter: I, bottom: bool, tables: Vec<Arc<B::Table>>)
    requires
        call_ensures(
            LsmStorageInner::<B, L, R, S>::compact_generate_sst_from_iter::<I>,
            (inner, iter, bottom),
            Ok::<Vec<Arc<B::Table>>, StorageError>(tables),
        ),
        in_order(iter.entries()),
    ensures
        writes(*old(inner), iter.entries().to_set(), bottom, tables@),
        only_numbers_drawn(*old(inner), *final(inner)),
        final(inner).next_sst_id == number_after(old(inner).next_sst_id, tables@.len() as int),
{
    assert(tables@.len() == tables.len());
    let before = *inner;
    compaction_of_sorted_input_writes(before, iter.entries(), bottom, tables@);
    nth_id_counts_on(before.next_sst_id, tables@.len());
}

/// A table that has reached the target size takes in no other user key: where one starts within a table,
/// the entries before it have an estimated size below the target.
pub proof fn full_tables_take_no_other_user_key(
    s: Seq<Entry<KeyView>>,
    rules: RetentionRules,
    target: usize,
    size: spec_fn(Seq<Entry<KeyView>>) -> usize,
    t: int,
    p: int,
)
    requires
        forall|i: int, j: int| 0 <= i < j < s.len() ==> (#[trigger] s[i]).key.before((#[trigger] s[j]).key),
        0 <= t < packed(s, rules, target, size).len(),
        0 < p < packed(s, rules, target, size)[t].len(),
        packed(s, rules, target, size)[t][p - 1].key.key != packed(s, rules, target, size)[t][p].key.key,
    ensures
        size(packed(s, rules, target, size)[t].take(p)) < target,
{
    assert(sorted(s));
    packed_first_is_filled(s, s.len() as int, rules, target, size);
    let (finished, filling) = packed_first(s, s.len() as int, rules, target, size);
    let parts = packed(s, rules, target, size);
    assert(parts == finished.push(filling));
    assert(starts_user_key(parts[t], p));
    if t < finished.len() {
        assert(finished[t] == parts[t]);
    }
}

/// Only the first table may be empty, and that only where the size of an empty table reaches the target or
/// nothing is kept.
pub proof fn tables_are_not_empty(
    s: Seq<Entry<KeyView>>,
    rules: RetentionRules,
    target: usize,
    size: spec_fn(Seq<Entry<KeyView>>) -> usize,
    t: int,
)
    requires
        forall|i: int, j: int| 0 <= i < j < s.len() ==> (#[trigger] s[i]).key.before((#[trigger] s[j]).key),
        0 <= t < packed(s, rules, target, size).len(),
    ensures
        t > 0 ==> packed(s, rules, target, size)[t].len() > 0,
        t == 0 && packed(s, rules, target, size)[t].len() > 0 ==> size(Seq::empty()) < target,
        t == 0 && packed(s, rules, target, size)[t].len() == 0 ==> size(Seq::empty()) >= target || kept(s, rules).len()
            == 0,
{
    assert(sorted(s));
    packed_first_is_filled(s, s.len() as int, rules, target, size);
    tables_hold_kept(s, rules, target, size);
    let (finished, filling) = packed_first(s, s.len() as int, rules, target, size);
    let parts = packed(s, rules, target, size);
    assert(parts == finished.push(filling));
    if t < finished.len() {
        assert(finished[t] == parts[t]);
        if t == 0 && parts[0].len() == 0 {
            tables_reach_target(s, rules, target, size, 0);
            assert(parts[0] =~= Seq::empty());
        }
    } else if t == 0 {
        let others = parts.drop_first();
        assert(others =~= Seq::empty());
        assert(others.flatten() =~= Seq::empty());
        assert(parts.first() == filling);
        assert(parts.flatten() == parts.first() + others.flatten());
    }
    if t == 0 && parts[0].len() > 0 {
        assert(starts_user_key(parts[0], 0));
        assert(parts[0].take(0) =~= Seq::empty());
    }
}

} // verus!
