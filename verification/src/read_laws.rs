//! What a compaction leaves of the reads that go through other levels as well.

use std::sync::Arc;

use vstd::prelude::*;

use crate::key::bytes_before;
use crate::key::bytes_before_is_asymmetric;
use crate::key::KeyModel;
use crate::key::KeyView;
use crate::lsm_storage::without_tables;
use crate::lsm_storage::LsmStorageInner;
use crate::lsm_storage::StateView;
use crate::merge::has_key;
use crate::merge::merge;
use crate::merge::merge_all;
use crate::merge::merge_all_prefers_earlier;
use crate::merge::merge_prefers_a;
use crate::merge::sorted;
use crate::merge::Entry;
use crate::retention::kept;
use crate::retention::RetentionRules;
use crate::retention_laws::compaction_keeps_or_drops_versions;
use crate::retention_laws::compaction_keeps_visible_versions;
use crate::retention_laws::kept_is_sorted;
use crate::retention_laws::read;
use crate::retention_laws::readable;
use crate::retention_laws::version;
use crate::storage_laws::compacted_tables_have_different_ids;
use crate::storage_laws::full_compaction_leaves_kept;
use crate::storage_laws::put_tables_are_found;
use crate::table::contents;
use crate::table::ids;
use crate::table::Table;
use crate::table::TableBuilder;

verus! {

/// Of two versions of one user key the newer one; of two equally new ones the first.
pub open spec fn newer(a: Option<Entry<KeyView>>, b: Option<Entry<KeyView>>) -> Option<Entry<KeyView>> {
    match (a, b) {
        (Some(x), Some(y)) => if y.key.ts > x.key.ts {
            b
        } else {
            a
        },
        (Some(_), None) => a,
        (None, _) => b,
    }
}

/// The entry is the one that a reader at `ts` sees: no other that it may see is newer.
spec fn is_newest(s: Seq<Entry<KeyView>>, key: Seq<u8>, ts: u64, e: Entry<KeyView>) -> bool {
    &&& s.contains(e)
    &&& readable(e, key, ts)
    &&& forall|x: Entry<KeyView>| #[trigger] s.contains(x) && readable(x, key, ts) ==> x.key.ts <= e.key.ts
}

/// In a sorted sequence a reader sees the newest version that is not too new for it, if there is one.
proof fn version_is_newest(s: Seq<Entry<KeyView>>, key: Seq<u8>, ts: u64)
    requires
        sorted(s),
    ensures
        match version(s, key, ts) {
            Some(e) => is_newest(s, key, ts, e),
            None => forall|x: Entry<KeyView>| #[trigger] s.contains(x) ==> !readable(x, key, ts),
        },
    decreases s.len(),
{
    if s.len() > 0 {
        let t = s.drop_last();
        let last = s.last();
        assert forall|i: int, j: int| 0 <= i < j < t.len() implies (#[trigger] t[i]).key.before(
            (#[trigger] t[j]).key,
        ) by {
            assert(t[i] == s[i] && t[j] == s[j]);
        }
        version_is_newest(t, key, ts);
        assert forall|x: Entry<KeyView>| #[trigger] s.contains(x) <==> t.contains(x) || x == last by {
            if s.contains(x) {
                let i = choose|i: int| 0 <= i < s.len() && s[i] == x;
                if i < t.len() {
                    assert(t[i] == x);
                }
            }
            if t.contains(x) {
                let i = choose|i: int| 0 <= i < t.len() && t[i] == x;
                assert(s[i] == x);
            }
            if x == last {
                assert(s[s.len() - 1] == x);
            }
        }
        if let Some(e) = version(t, key, ts) {
            let i = choose|i: int| 0 <= i < t.len() && t[i] == e;
            assert(s[i].key.before(s[s.len() - 1].key));
            if readable(last, key, ts) && bytes_before(e.key.key, last.key.key) {
                bytes_before_is_asymmetric(e.key.key, last.key.key);
            }
        }
    }
}

/// A sorted sequence has one entry only with a given key.
proof fn one_entry_per_key(s: Seq<Entry<KeyView>>, x: Entry<KeyView>, y: Entry<KeyView>)
    requires
        sorted(s),
        s.contains(x),
        s.contains(y),
        x.key == y.key,
    ensures
        x == y,
{
    let i = choose|i: int| 0 <= i < s.len() && s[i] == x;
    let j = choose|j: int| 0 <= j < s.len() && s[j] == y;
    if i < j {
        assert(s[i].key.before(s[j].key));
        KeyView::before_is_asymmetric(x.key, y.key);
    }
    if j < i {
        assert(s[j].key.before(s[i].key));
        KeyView::before_is_asymmetric(y.key, x.key);
    }
}

/// A reader of two merged sequences sees the newer one of the versions that it would see in each, and
/// the one of the first where both are equally new.
pub proof fn merge_shows_newer_version(a: Seq<Entry<KeyView>>, b: Seq<Entry<KeyView>>, key: Seq<u8>, ts: u64)
    requires
        sorted(a),
        sorted(b),
    ensures
        version(merge(a, b), key, ts) == newer(version(a, key, ts), version(b, key, ts)),
{
    let m = merge(a, b);
    merge_prefers_a(a, b);
    version_is_newest(a, key, ts);
    version_is_newest(b, key, ts);
    version_is_newest(m, key, ts);
    let expected = newer(version(a, key, ts), version(b, key, ts));
    match expected {
        None => {
            if let Some(e) = version(m, key, ts) {
                assert(m.contains(e));
            }
        },
        Some(e) => {
            assert(m.contains(e)) by {
                if !a.contains(e) && has_key(a, e.key) {
                    let i = choose|i: int| 0 <= i < a.len() && (#[trigger] a[i]).key == e.key;
                    assert(a.contains(a[i]));
                    assert(readable(a[i], key, ts));
                }
            }
            let f = version(m, key, ts)->0;
            assert(m.contains(f));
            assert(f.key == e.key);
            one_entry_per_key(m, e, f);
        },
    }
}

/// A compaction above the bottom level does not change which version a reader at or above the
/// watermark sees through all the levels, of any user key that no filter gives up.
pub proof fn compaction_keeps_versions_through_levels(
    above: Seq<Entry<KeyView>>,
    input: Seq<Entry<KeyView>>,
    below: Seq<Entry<KeyView>>,
    rules: RetentionRules,
    key: Seq<u8>,
    ts: u64,
)
    requires
        sorted(above),
        sorted(input),
        sorted(below),
        ts >= rules.watermark,
        !rules.bottom,
        !rules.filters(key),
    ensures
        version(merge(above, merge(kept(input, rules), below)), key, ts) == version(
            merge(above, merge(input, below)),
            key,
            ts,
        ),
{
    kept_is_sorted(input, rules);
    compaction_keeps_visible_versions(input, rules, key, ts);
    merge_shows_newer_version(kept(input, rules), below, key, ts);
    merge_shows_newer_version(input, below, key, ts);
    merge_prefers_a(kept(input, rules), below);
    merge_prefers_a(input, below);
    merge_shows_newer_version(above, merge(kept(input, rules), below), key, ts);
    merge_shows_newer_version(above, merge(input, below), key, ts);
}

/// For a reader at `ts`, a deletion at or below the watermark in `s` hides a value that lies below.
pub open spec fn hides_below(
    s: Seq<Entry<KeyView>>,
    below: Seq<Entry<KeyView>>,
    watermark: u64,
    key: Seq<u8>,
    ts: u64,
) -> bool {
    match (version(s, key, ts), version(below, key, ts)) {
        (Some(deletion), Some(hidden)) => {
            &&& deletion.value.len() == 0
            &&& deletion.key.ts <= watermark
            &&& hidden.value.len() > 0
            &&& hidden.key.ts <= deletion.key.ts
        },
        _ => false,
    }
}

/// A compaction, also one that counts as reaching the bottom, does not change what a reader at or
/// above the watermark reads of a user key from the compacted entries and what lies below them, where
/// no filter gives the user key up and no deletion that the compaction drops hides a value below.
pub proof fn compaction_keeps_reads_through_below(
    input: Seq<Entry<KeyView>>,
    below: Seq<Entry<KeyView>>,
    rules: RetentionRules,
    key: Seq<u8>,
    ts: u64,
)
    requires
        sorted(input),
        sorted(below),
        ts >= rules.watermark,
        !rules.filters(key),
        rules.bottom ==> !hides_below(input, below, rules.watermark, key, ts),
    ensures
        read(merge(kept(input, rules), below), key, ts) == read(merge(input, below), key, ts),
{
    kept_is_sorted(input, rules);
    merge_shows_newer_version(kept(input, rules), below, key, ts);
    merge_shows_newer_version(input, below, key, ts);
    compaction_keeps_or_drops_versions(input, rules, key, ts);
}

impl<T: Table> StateView<T> {
    /// What the levels below the first one hold, the upper ones preferred.
    pub open spec fn deeper(self) -> Seq<Entry<KeyView>> {
        merge_all(self.deeper_parts())
    }

    /// What each of the levels below the first one holds.
    pub open spec fn deeper_parts(self) -> Seq<Seq<Entry<KeyView>>> {
        self.levels.skip(1).map_values(|level: (usize, Seq<usize>)| contents(self.tables(level.1)).flatten())
    }

    /// What L0 and all levels hold.
    pub open spec fn all_entries(self) -> Seq<Entry<KeyView>> {
        merge(self.l0_over(self.l0_sstables, self.levels[0].1), self.deeper())
    }

    /// The table of this number is listed by a level below the first one.
    pub open spec fn lists_deeper(self, id: usize) -> bool {
        exists|l: int| 0 < l < self.levels.len() && (#[trigger] self.levels[l]).1.contains(id)
    }
}

/// The levels below the first one hold after a full compaction what they held before, where their
/// tables are there, are none of those compacted, and have no number that is given out again.
pub proof fn full_compaction_leaves_deeper_levels<T: Table>(before: StateView<T>, tables: Seq<Arc<T>>)
    requires
        before.levels.len() > 0,
        ids(tables).no_duplicates(),
        forall|id: usize| #[trigger]
            before.lists_deeper(id) ==> before.sstables.contains_key(id) && !(before.l0_sstables
                + before.levels[0].1).contains(id) && !ids(tables).contains(id),
    ensures
        before.after_full_compaction(tables).deeper_parts() == before.deeper_parts(),
{
    let after = before.after_full_compaction(tables);
    let gone = before.l0_sstables + before.levels[0].1;
    put_tables_are_found(without_tables(before.sstables, gone), tables);
    assert(after.levels.skip(1) =~= before.levels.skip(1));
    assert forall|l: int| 0 <= l < before.levels.skip(1).len() implies #[trigger] after.deeper_parts()[l]
        == before.deeper_parts()[l] by {
        let listed = before.levels.skip(1)[l].1;
        assert(listed == before.levels[l + 1].1);
        assert(after.tables(listed) =~= before.tables(listed)) by {
            assert forall|i: int| 0 <= i < listed.len() implies #[trigger] after.tables(listed)[i] == before.tables(
                listed,
            )[i] by {
                assert(before.levels[l + 1].1.contains(listed[i]));
                assert(before.lists_deeper(listed[i]));
            }
        }
    }
    assert(after.deeper_parts() =~= before.deeper_parts());
}

/// A full compaction does not change what a reader at or above the watermark reads of a user key from
/// L0 and all levels, where no filter gives the user key up and no deletion in L0 or the first level
/// hides a value in a deeper one.
pub proof fn full_compaction_keeps_reads_through_levels<B: TableBuilder, L, R, S>(
    inner: LsmStorageInner<B, L, R, S>,
    tables: Seq<Arc<B::Table>>,
    key: Seq<u8>,
    ts: u64,
)
    requires
        inner.state@.levels.len() > 0,
        inner.compacts_to(inner.state@.l0_over(inner.state@.l0_sstables, inner.state@.levels[0].1), true, tables),
        tables.len() <= usize::MAX,
        forall|id: usize| #[trigger]
            inner.state@.lists_deeper(id) ==> inner.state@.sstables.contains_key(id) && !(inner.state@.l0_sstables
                + inner.state@.levels[0].1).contains(id) && !ids(tables).contains(id),
        sorted(inner.state@.l0_over(inner.state@.l0_sstables, inner.state@.levels[0].1)),
        forall|l: int| 0 <= l < inner.state@.deeper_parts().len() ==> sorted(#[trigger] inner.state@.deeper_parts()[l]),
        ts >= inner.watermark,
        !inner.retention(true).filters(key),
        !hides_below(
            inner.state@.l0_over(inner.state@.l0_sstables, inner.state@.levels[0].1),
            inner.state@.deeper(),
            inner.watermark,
            key,
            ts,
        ),
    ensures
        read(inner.state@.after_full_compaction(tables).all_entries(), key, ts) == read(
            inner.state@.all_entries(),
            key,
            ts,
        ),
{
    let before = inner.state@;
    let input = before.l0_over(before.l0_sstables, before.levels[0].1);
    compacted_tables_have_different_ids(inner, input, true, tables);
    full_compaction_leaves_kept(inner, tables);
    full_compaction_leaves_deeper_levels(before, tables);
    merge_all_prefers_earlier(before.deeper_parts());
    compaction_keeps_reads_through_below(input, before.deeper(), inner.retention(true), key, ts);
}

} // verus!
