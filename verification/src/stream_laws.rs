//! How what a compaction writes grows with its input, for entries in any order.

use std::sync::Arc;

use vstd::prelude::*;

use crate::compaction_laws::number_after;
use crate::compaction_laws::only_numbers_drawn;
use crate::error::StorageError;
use crate::iterators::StorageIterator;
use crate::key::KeyModel;
use crate::key::KeySlice;
use crate::key::KeyView;
use crate::lsm_storage::prefixes;
use crate::lsm_storage::LsmStorageInner;
use crate::merge::Entry;
use crate::retention::kept;
use crate::retention::kept_at;
use crate::retention::kept_of_first;
use crate::retention::one_run;
use crate::retention::packed;
use crate::retention::packed_first;
use crate::retention::starts_run;
use crate::retention::superseded;
use crate::retention::RetentionRules;
use crate::storage_laws::nth_id_counts_on;
use crate::table::contents;
use crate::table::Table;
use crate::table::TableBuilder;

verus! {

/// From place `j` on all entries are versions of the user key.
pub open spec fn same_key_from(s: Seq<Entry<KeyView>>, j: int, key: Seq<u8>) -> bool {
    forall|m: int| j <= m < s.len() ==> (#[trigger] s[m]).key.key == key
}

/// Directly before, among the versions of the same user key, there is one at or below the watermark.
pub open spec fn settled_before(s: Seq<Entry<KeyView>>, key: Seq<u8>, watermark: u64) -> bool {
    exists|j: int| 0 <= j < s.len() && #[trigger] same_key_from(s, j, key) && s[j].key.ts <= watermark
}

/// One of the prefixes is the front of the user key.
pub open spec fn starts_with_any(names: Seq<Seq<u8>>, key: Seq<u8>) -> bool {
    exists|p: int| 0 <= p < names.len() && (#[trigger] names[p]).len() <= key.len() && names[p] == key.take(
        names[p].len() as int,
    )
}

/// An entry that comes after the others is kept.
pub open spec fn kept_after(s: Seq<Entry<KeyView>>, e: Entry<KeyView>, rules: RetentionRules) -> bool {
    e.key.ts > rules.watermark || {
        &&& !settled_before(s, e.key.key, rules.watermark)
        &&& !(rules.bottom && e.value.len() == 0)
        &&& !starts_with_any(rules.prefixes, e.key.key)
    }
}

proof fn filters_are_fronts(rules: RetentionRules, key: Seq<u8>)
    ensures
        rules.filters(key) <==> starts_with_any(rules.prefixes, key),
{
    if rules.filters(key) {
        let p = choose|p: int| 0 <= p < rules.prefixes.len() && #[trigger] rules.prefixes[p].is_prefix_of(key);
        assert(rules.prefixes[p] =~= key.take(rules.prefixes[p].len() as int));
    }
    if starts_with_any(rules.prefixes, key) {
        let p = choose|p: int|
            0 <= p < rules.prefixes.len() && (#[trigger] rules.prefixes[p]).len() <= key.len() && rules.prefixes[p]
                == key.take(rules.prefixes[p].len() as int);
        assert(rules.prefixes[p] =~= key.subrange(0, rules.prefixes[p].len() as int));
        assert(rules.prefixes[p].is_prefix_of(key));
    }
}

proof fn last_is_kept(s: Seq<Entry<KeyView>>, e: Entry<KeyView>, rules: RetentionRules)
    ensures
        kept_at(s.push(e), s.len() as int, rules) <==> kept_after(s, e, rules),
{
    let t = s.push(e);
    let n = s.len() as int;
    filters_are_fronts(rules, e.key.key);
    if superseded(t, n, rules.watermark) {
        let j = choose|j: int| 0 <= j < n && #[trigger] one_run(t, j, n) && t[j].key.ts <= rules.watermark;
        assert forall|m: int| j <= m < s.len() implies (#[trigger] s[m]).key.key == e.key.key by {
            assert(t[m].key.key == t[n].key.key);
        }
        assert(same_key_from(s, j, e.key.key));
        assert(s[j] == t[j]);
    }
    if settled_before(s, e.key.key, rules.watermark) {
        let j = choose|j: int|
            0 <= j < s.len() && #[trigger] same_key_from(s, j, e.key.key) && s[j].key.ts <= rules.watermark;
        assert forall|m: int| j <= m <= n implies (#[trigger] t[m]).key.key == t[n].key.key by {
            if m < n {
                assert(t[m] == s[m]);
            }
        }
        assert(one_run(t, j, n));
        assert(s[j] == t[j]);
    }
}

proof fn earlier_are_kept_alike(s: Seq<Entry<KeyView>>, e: Entry<KeyView>, rules: RetentionRules, i: int)
    requires
        0 <= i < s.len(),
    ensures
        kept_at(s.push(e), i, rules) == kept_at(s, i, rules),
        starts_run(s.push(e), i) == starts_run(s, i),
{
    let t = s.push(e);
    assert(forall|m: int| 0 <= m <= i ==> #[trigger] t[m] == s[m]);
    if superseded(t, i, rules.watermark) {
        let j = choose|j: int| 0 <= j < i && #[trigger] one_run(t, j, i) && t[j].key.ts <= rules.watermark;
        assert forall|m: int| j <= m <= i implies (#[trigger] s[m]).key.key == s[i].key.key by {
            assert(t[m].key.key == t[i].key.key);
        }
        assert(one_run(s, j, i));
    }
    if superseded(s, i, rules.watermark) {
        let j = choose|j: int| 0 <= j < i && #[trigger] one_run(s, j, i) && s[j].key.ts <= rules.watermark;
        assert forall|m: int| j <= m <= i implies (#[trigger] t[m]).key.key == t[i].key.key by {
            assert(s[m].key.key == s[i].key.key);
        }
        assert(one_run(t, j, i));
    }
}

pub proof fn earlier_are_packed_alike(
    s: Seq<Entry<KeyView>>,
    e: Entry<KeyView>,
    n: int,
    rules: RetentionRules,
    target: usize,
    size: spec_fn(Seq<Entry<KeyView>>) -> usize,
)
    requires
        0 <= n <= s.len(),
    ensures
        kept_of_first(s.push(e), n, rules) == kept_of_first(s, n, rules),
        packed_first(s.push(e), n, rules, target, size) == packed_first(s, n, rules, target, size),
    decreases n,
{
    if n > 0 {
        earlier_are_packed_alike(s, e, n - 1, rules, target, size);
        earlier_are_kept_alike(s, e, rules, n - 1);
        assert(s.push(e)[n - 1] == s[n - 1]);
    }
}

/// A compaction keeps of a longer input what it keeps of the shorter one, and the last entry where that
/// is kept: above the watermark always, and else where no version at or below the watermark comes
/// directly before it, it is no deletion at the bottom, and no prefix names it.
pub proof fn kept_grows_with_the_input(s: Seq<Entry<KeyView>>, e: Entry<KeyView>, rules: RetentionRules)
    ensures
        kept(Seq::<Entry<KeyView>>::empty(), rules).len() == 0,
        kept(s.push(e), rules) == if kept_after(s, e, rules) {
            kept(s, rules).push(e)
        } else {
            kept(s, rules)
        },
{
    let any = |entries: Seq<Entry<KeyView>>| 0usize;
    earlier_are_packed_alike(s, e, s.len() as int, rules, 0, any);
    last_is_kept(s, e, rules);
    assert(s.push(e)[s.len() as int] == e);
}

/// Nothing written makes one empty table. With one more entry that is kept, the last table takes it in,
/// unless it starts another user key and the table has reached the target size: then it goes into a
/// table of its own. Nothing else changes.
pub proof fn tables_grow_with_the_input(
    s: Seq<Entry<KeyView>>,
    e: Entry<KeyView>,
    rules: RetentionRules,
    target: usize,
    size: spec_fn(Seq<Entry<KeyView>>) -> usize,
)
    ensures
        packed(Seq::<Entry<KeyView>>::empty(), rules, target, size) == seq![Seq::<Entry<KeyView>>::empty()],
        packed(s, rules, target, size).len() > 0,
        packed(s.push(e), rules, target, size) == {
            let tables = packed(s, rules, target, size);
            let last = tables[tables.len() - 1];
            if !kept_after(s, e, rules) {
                tables
            } else if (s.len() == 0 || s[s.len() - 1].key.key != e.key.key) && size(last) >= target {
                tables.push(seq![e])
            } else {
                tables.update(tables.len() - 1, last.push(e))
            }
        },
{
    let t = s.push(e);
    let n = s.len() as int;
    earlier_are_packed_alike(s, e, n, rules, target, size);
    last_is_kept(s, e, rules);
    assert(t[n] == e);
    assert(starts_run(t, n) == (s.len() == 0 || s[n - 1].key.key != e.key.key)) by {
        if n > 0 {
            assert(t[n - 1] == s[n - 1]);
        }
    }
    let (finished, filling) = packed_first(s, n, rules, target, size);
    assert(packed(s, rules, target, size) =~= finished.push(filling));
    assert(finished.push(filling)[finished.len() as int] == filling);
    assert(finished.push(filling.push(e)) =~= finished.push(filling).update(finished.len() as int, filling.push(e)));
    let none = Seq::<Entry<KeyView>>::empty();
    assert(packed(none, rules, target, size) =~= seq![none]);
}

/// A compaction that succeeds hands its entries, in any order, to the rules of the storage, and writes the
/// tables that result under the numbers next in turn.
pub proof fn compacting_a_stream_writes_packed_tables<
    B: TableBuilder,
    L,
    R,
    S,
    I: for<'a> StorageIterator<Model = KeyView, KeyType<'a> = KeySlice<'a>>,
>(inner: &mut LsmStorageInner<B, L, R, S>, iter: I, bottom: bool, tables: Vec<Arc<B::Table>>)
    requires
        call_ensures(
            LsmStorageInner::<B, L, R, S>::compact_generate_sst_from_iter::<I>,
            (inner, iter, bottom),
            Ok::<Vec<Arc<B::Table>>, StorageError>(tables),
        ),
    ensures
        Seq::new(tables@.len(), |t: int| tables@[t].entries()) == packed(
            iter.entries(),
            RetentionRules {
                bottom,
                watermark: old(inner).watermark,
                prefixes: Seq::new(
                    old(inner).compaction_filters@.len(),
                    |f: int| old(inner).compaction_filters@[f]->Prefix_0@,
                ),
            },
            old(inner).options.target_sst_size,
            |entries: Seq<Entry<KeyView>>| B::size_of(old(inner).options.block_size, entries),
        ),
        forall|t: int|
            0 <= t < tables@.len() ==> (#[trigger] tables@[t]).id() == number_after(old(inner).next_sst_id, t),
        final(inner).next_sst_id == number_after(old(inner).next_sst_id, tables@.len() as int),
        only_numbers_drawn(*old(inner), *final(inner)),
{
    let before = *inner;
    assert(tables@.len() == tables.len());
    assert(Seq::new(tables@.len(), |t: int| tables@[t].entries()) =~= contents(tables@));
    let names = Seq::new(before.compaction_filters@.len(), |f: int| before.compaction_filters@[f]->Prefix_0@);
    assert(names =~= prefixes(before.compaction_filters@));
    assert(before.retention(bottom) == (RetentionRules { bottom, watermark: before.watermark, prefixes: names }));
    let size = |entries: Seq<Entry<KeyView>>| B::size_of(before.options.block_size, entries);
    assert(before.size_estimate() =~= size);
    nth_id_counts_on(before.next_sst_id, tables@.len());
    assert forall|t: int| 0 <= t < tables@.len() implies (#[trigger] tables@[t]).id() == number_after(
        before.next_sst_id,
        t,
    ) by {
        nth_id_counts_on(before.next_sst_id, t as nat);
    }
}

/// Every entry above the watermark is kept, whether or not a filter names it.
pub proof fn all_above_the_watermark_are_kept(s: Seq<Entry<KeyView>>, rules: RetentionRules, i: int)
    requires
        0 <= i < s.len(),
        s[i].key.ts > rules.watermark,
    ensures
        kept(s, rules).contains(s[i]),
{
    crate::retention_laws::kept_are_from_the_input(s, rules, s[i]);
    assert(kept_at(s, i, rules));
}

/// No entry at or below the watermark is kept that a prefix names.
pub proof fn named_entries_are_given_up(s: Seq<Entry<KeyView>>, rules: RetentionRules, e: Entry<KeyView>)
    requires
        e.key.ts <= rules.watermark,
        starts_with_any(rules.prefixes, e.key.key),
    ensures
        !kept(s, rules).contains(e),
{
    crate::retention_laws::kept_are_from_the_input(s, rules, e);
    filters_are_fronts(rules, e.key.key);
}

/// The newest version at or below the watermark is kept, unless it is a deletion at the bottom or a prefix
/// names it.
pub proof fn newest_settled_version_is_kept(s: Seq<Entry<KeyView>>, rules: RetentionRules, i: int)
    requires
        0 <= i < s.len(),
        forall|j: int, k: int| 0 <= j < k < s.len() ==> (#[trigger] s[j]).key.before((#[trigger] s[k]).key),
        s[i].key.ts <= rules.watermark,
        forall|j: int|
            0 <= j < s.len() && (#[trigger] s[j]).key.key == s[i].key.key && s[j].key.ts <= rules.watermark
                ==> s[j].key.ts <= s[i].key.ts,
        !rules.bottom || s[i].value.len() > 0,
        forall|p: int|
            0 <= p < rules.prefixes.len() && (#[trigger] rules.prefixes[p]).len() <= s[i].key.key.len()
                ==> rules.prefixes[p] != s[i].key.key.take(rules.prefixes[p].len() as int),
    ensures
        kept(s, rules).contains(s[i]),
{
    crate::retention_laws::kept_are_from_the_input(s, rules, s[i]);
    filters_are_fronts(rules, s[i].key.key);
    if superseded(s, i, rules.watermark) {
        let j = choose|j: int| 0 <= j < i && #[trigger] one_run(s, j, i) && s[j].key.ts <= rules.watermark;
        assert(s[j].key.key == s[i].key.key);
        assert(s[j].key.before(s[i].key));
        if crate::key::bytes_before(s[j].key.key, s[i].key.key) {
            crate::key::bytes_before_is_asymmetric(s[j].key.key, s[i].key.key);
        }
    }
    assert(kept_at(s, i, rules));
}

/// Of two versions of a user key at or below the watermark the older one is not kept.
pub proof fn older_settled_versions_are_dropped(s: Seq<Entry<KeyView>>, rules: RetentionRules, i: int, j: int)
    requires
        0 <= i < s.len(),
        0 <= j < s.len(),
        forall|k: int, l: int| 0 <= k < l < s.len() ==> (#[trigger] s[k]).key.before((#[trigger] s[l]).key),
        s[i].key.key == s[j].key.key,
        s[j].key.ts < s[i].key.ts <= rules.watermark,
    ensures
        !kept(s, rules).contains(s[j]),
{
    assert(crate::merge::sorted(s));
    crate::retention_laws::kept_are_from_the_input(s, rules, s[j]);
    if kept(s, rules).contains(s[j]) {
        let m = choose|m: int| 0 <= m < s.len() && #[trigger] s[m] == s[j] && kept_at(s, m, rules);
        if m <= i {
            if m < i {
                assert(s[m].key.before(s[i].key));
            }
            KeyView::before_is_asymmetric(s[i].key, s[m].key);
        }
        crate::retention_laws::one_old_version_is_kept(s, rules, i, m);
    }
}

/// At the bottom no deletion at or below the watermark is kept.
pub proof fn settled_deletions_vanish_at_the_bottom(s: Seq<Entry<KeyView>>, rules: RetentionRules, e: Entry<KeyView>)
    requires
        rules.bottom,
        e.value.len() == 0,
        e.key.ts <= rules.watermark,
    ensures
        !kept(s, rules).contains(e),
{
    crate::retention_laws::kept_are_from_the_input(s, rules, e);
}

/// No entry at or below the watermark is kept whose user key starts with a prefix of the rules.
pub proof fn prefixes_give_up_settled_entries(
    s: Seq<Entry<KeyView>>,
    rules: RetentionRules,
    p: int,
    rest: Seq<u8>,
    e: Entry<KeyView>,
)
    requires
        0 <= p < rules.prefixes.len(),
        e.key.key == rules.prefixes[p] + rest,
        e.key.ts <= rules.watermark,
    ensures
        !kept(s, rules).contains(e),
{
    assert(rules.prefixes[p] =~= e.key.key.take(rules.prefixes[p].len() as int));
    named_entries_are_given_up(s, rules, e);
}

/// Nothing is kept that the input does not hold.
pub proof fn nothing_is_made_up(s: Seq<Entry<KeyView>>, rules: RetentionRules, e: Entry<KeyView>)
    requires
        kept(s, rules).contains(e),
    ensures
        s.contains(e),
{
    crate::retention_laws::kept_are_from_the_input(s, rules, e);
    let i = choose|i: int| 0 <= i < s.len() && #[trigger] s[i] == e && kept_at(s, i, rules);
    assert(s.contains(s[i]));
}

} // verus!
