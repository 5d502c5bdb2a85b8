//! What compactions leave as it was, and how their tables are laid out.

use vstd::prelude::*;

use crate::key::bytes_before;
use crate::key::bytes_before_is_asymmetric;
use crate::key::bytes_before_is_transitive;
use crate::key::KeyModel;
use crate::key::KeyView;
use crate::merge::sorted;
use crate::merge::Entry;
use crate::retention::kept;
use crate::retention::kept_at;
use crate::retention::kept_of_first;
use crate::retention::one_run;
use crate::retention::packed;
use crate::retention::packed_first;
use crate::retention::starts_run;
use crate::retention::superseded;
use crate::retention::RetentionRules;

verus! {

/// A reader at `ts` may see the entry when it looks for the user key.
pub open spec fn readable(e: Entry<KeyView>, key: Seq<u8>, ts: u64) -> bool {
    e.key.key == key && e.key.ts <= ts
}

/// The version of the user key that a reader at `ts` sees: the first one that is not too new.
pub open spec fn version(s: Seq<Entry<KeyView>>, key: Seq<u8>, ts: u64) -> Option<Entry<KeyView>>
    decreases s.len(),
{
    if s.len() == 0 {
        None
    } else {
        match version(s.drop_last(), key, ts) {
            Some(e) => Some(e),
            None => if readable(s.last(), key, ts) {
                Some(s.last())
            } else {
                None
            },
        }
    }
}

/// What a reader at `ts` reads of the user key. An empty value stands for a deletion.
pub open spec fn read(s: Seq<Entry<KeyView>>, key: Seq<u8>, ts: u64) -> Option<Seq<u8>> {
    match version(s, key, ts) {
        Some(e) => if e.value.len() > 0 {
            Some(e.value)
        } else {
            None
        },
        None => None,
    }
}

/// In a sorted sequence the versions of one user key lie next to each other.
pub proof fn versions_are_one_run(s: Seq<Entry<KeyView>>, j: int, i: int)
    requires
        sorted(s),
        0 <= j <= i < s.len(),
        s[j].key.key == s[i].key.key,
    ensures
        one_run(s, j, i),
{
    assert forall|m: int| j <= m <= i implies (#[trigger] s[m]).key.key == s[i].key.key by {
        if j < m < i && s[m].key.key != s[i].key.key {
            assert(s[j].key.before(s[m].key));
            assert(s[m].key.before(s[i].key));
            bytes_before_is_asymmetric(s[j].key.key, s[m].key.key);
        }
    }
}

/// The kept ones among the first `n` entries are a part of these.
proof fn kept_are_entries(s: Seq<Entry<KeyView>>, n: int, rules: RetentionRules)
    requires
        0 <= n <= s.len(),
    ensures
        forall|e: Entry<KeyView>| #[trigger]
            kept_of_first(s, n, rules).contains(e) <==> exists|i: int|
                0 <= i < n && #[trigger] s[i] == e && kept_at(s, i, rules),
    decreases n,
{
    let k = kept_of_first(s, n, rules);
    if n > 0 {
        kept_are_entries(s, n - 1, rules);
        let p = kept_of_first(s, n - 1, rules);
        assert forall|e: Entry<KeyView>| #[trigger] k.contains(e) <==> exists|i: int|
            0 <= i < n && #[trigger] s[i] == e && kept_at(s, i, rules) by {
            if k.contains(e) {
                let j = choose|j: int| 0 <= j < k.len() && k[j] == e;
                if j < p.len() {
                    assert(p[j] == e);
                    assert(p.contains(e));
                    let i = choose|i: int| 0 <= i < n - 1 && #[trigger] s[i] == e && kept_at(s, i, rules);
                    assert(0 <= i < n && s[i] == e && kept_at(s, i, rules));
                } else {
                    assert(s[n - 1] == e && kept_at(s, n - 1, rules));
                }
            }
            if exists|i: int| 0 <= i < n && #[trigger] s[i] == e && kept_at(s, i, rules) {
                let i = choose|i: int| 0 <= i < n && #[trigger] s[i] == e && kept_at(s, i, rules);
                if i < n - 1 {
                    assert(p.contains(e));
                    let j = choose|j: int| 0 <= j < p.len() && p[j] == e;
                    assert(k[j] == e);
                } else {
                    assert(k[k.len() - 1] == e);
                }
            }
        }
    } else {
        assert forall|e: Entry<KeyView>| #[trigger] k.contains(e) <==> exists|i: int|
            0 <= i < n && #[trigger] s[i] == e && kept_at(s, i, rules) by {}
    }
}

/// A compaction makes nothing up: what it keeps are entries of its input.
pub proof fn kept_are_from_the_input(s: Seq<Entry<KeyView>>, rules: RetentionRules, e: Entry<KeyView>)
    ensures
        kept(s, rules).contains(e) <==> exists|i: int|
            0 <= i < s.len() && #[trigger] s[i] == e && kept_at(s, i, rules),
{
    kept_are_entries(s, s.len() as int, rules);
    if kept(s, rules).contains(e) {
        let i = choose|i: int| 0 <= i < s.len() && #[trigger] s[i] == e && kept_at(s, i, rules);
        assert(0 <= i < s.len() && s[i] == e && kept_at(s, i, rules));
    }
}

proof fn kept_of_first_is_sorted(s: Seq<Entry<KeyView>>, n: int, rules: RetentionRules)
    requires
        sorted(s),
        0 <= n <= s.len(),
    ensures
        sorted(kept_of_first(s, n, rules)),
    decreases n,
{
    if n > 0 {
        kept_of_first_is_sorted(s, n - 1, rules);
        kept_are_entries(s, n - 1, rules);
        let p = kept_of_first(s, n - 1, rules);
        let k = kept_of_first(s, n, rules);
        assert forall|i: int, j: int| 0 <= i < j < k.len() implies (#[trigger] k[i]).key.before(
            (#[trigger] k[j]).key,
        ) by {
            assert(k[i] == p[i]);
            if j < p.len() {
                assert(k[j] == p[j]);
            } else {
                assert(p.contains(p[i]));
                let m = choose|m: int| 0 <= m < n - 1 && #[trigger] s[m] == p[i] && kept_at(s, m, rules);
                assert(s[m].key.before(s[n - 1].key));
            }
        }
    }
}

/// A compaction keeps the order of its input.
pub proof fn kept_is_sorted(s: Seq<Entry<KeyView>>, rules: RetentionRules)
    requires
        sorted(s),
    ensures
        sorted(kept(s, rules)),
{
    kept_of_first_is_sorted(s, s.len() as int, rules);
}

/// The index of the version that a reader sees.
spec fn seen_at(s: Seq<Entry<KeyView>>, n: int, key: Seq<u8>, ts: u64, i: int) -> bool {
    &&& 0 <= i < n
    &&& readable(s[i], key, ts)
    &&& forall|j: int| 0 <= j < i ==> !readable(#[trigger] s[j], key, ts)
}

/// What a reader at or above the watermark sees of what is kept: what it saw before, if that is kept.
proof fn version_of_kept(s: Seq<Entry<KeyView>>, n: int, rules: RetentionRules, key: Seq<u8>, ts: u64)
    requires
        sorted(s),
        0 <= n <= s.len(),
        ts >= rules.watermark,
    ensures
        match version(s.take(n), key, ts) {
            None => version(kept_of_first(s, n, rules), key, ts) is None && forall|j: int|
                0 <= j < n ==> !readable(#[trigger] s[j], key, ts),
            Some(e) => exists|i: int| #[trigger]
                seen_at(s, n, key, ts, i) && s[i] == e && version(kept_of_first(s, n, rules), key, ts) == (
                if kept_at(s, i, rules) {
                    Some(e)
                } else {
                    None
                }),
        },
    decreases n,
{
    if n > 0 {
        version_of_kept(s, n - 1, rules, key, ts);
        let x = s[n - 1];
        let p = kept_of_first(s, n - 1, rules);
        let k = kept_of_first(s, n, rules);
        assert(s.take(n).drop_last() =~= s.take(n - 1));
        assert(s.take(n).last() == x);
        if kept_at(s, n - 1, rules) {
            assert(k.drop_last() =~= p);
            assert(k.last() == x);
        }
        match version(s.take(n - 1), key, ts) {
            Some(e) => {
                let i = choose|i: int| #[trigger]
                    seen_at(s, n - 1, key, ts, i) && s[i] == e && version(p, key, ts) == (if kept_at(s, i, rules) {
                        Some(e)
                    } else {
                        None
                    });
                assert(seen_at(s, n, key, ts, i));
                if !kept_at(s, i, rules) && readable(x, key, ts) {
                    versions_are_one_run(s, i, n - 1);
                    assert(s[i].key.before(x.key));
                    if bytes_before(s[i].key.key, x.key.key) {
                        bytes_before_is_asymmetric(s[i].key.key, x.key.key);
                    }
                    assert(superseded(s, n - 1, rules.watermark));
                    assert(!kept_at(s, n - 1, rules));
                }
            },
            None => {
                if readable(x, key, ts) {
                    assert(seen_at(s, n, key, ts, n - 1));
                }
            },
        }
    } else {
        assert(s.take(0) =~= Seq::empty());
    }
}

/// The version that a reader sees is superseded by none, so that only a deletion at the bottom or a
/// filter can take it away.
proof fn seen_is_kept_unless_given_up(
    s: Seq<Entry<KeyView>>,
    rules: RetentionRules,
    key: Seq<u8>,
    ts: u64,
    i: int,
)
    requires
        ts >= rules.watermark,
        seen_at(s, s.len() as int, key, ts, i),
    ensures
        kept_at(s, i, rules) || (rules.bottom && s[i].value.len() == 0) || rules.filters(key),
{
    if superseded(s, i, rules.watermark) {
        let j = choose|j: int| 0 <= j < i && #[trigger] one_run(s, j, i) && s[j].key.ts <= rules.watermark;
        assert(s[j].key.key == s[i].key.key);
        assert(readable(s[j], key, ts));
    }
}

/// What a reader at or above the watermark sees of a user key that no filter gives up, a compaction
/// keeps, unless it reaches the bottom and that is a deletion at or below the watermark: then the reader
/// sees nothing.
pub proof fn compaction_keeps_or_drops_versions(
    s: Seq<Entry<KeyView>>,
    rules: RetentionRules,
    key: Seq<u8>,
    ts: u64,
)
    requires
        sorted(s),
        ts >= rules.watermark,
        !rules.filters(key),
    ensures
        version(kept(s, rules), key, ts) == match version(s, key, ts) {
            Some(e) => if rules.bottom && e.value.len() == 0 && e.key.ts <= rules.watermark {
                None
            } else {
                Some(e)
            },
            None => None,
        },
{
    let n = s.len() as int;
    version_of_kept(s, n, rules, key, ts);
    assert(s.take(n) =~= s);
    if let Some(e) = version(s, key, ts) {
        let i = choose|i: int| #[trigger]
            seen_at(s, n, key, ts, i) && s[i] == e && version(kept(s, rules), key, ts) == (if kept_at(s, i, rules) {
                Some(e)
            } else {
                None
            });
        seen_is_kept_unless_given_up(s, rules, key, ts, i);
    }
}

/// A compaction above the bottom level does not change which version a reader at or above the
/// watermark sees, of any user key that no filter gives up.
pub proof fn compaction_keeps_visible_versions(
    s: Seq<Entry<KeyView>>,
    rules: RetentionRules,
    key: Seq<u8>,
    ts: u64,
)
    requires
        sorted(s),
        ts >= rules.watermark,
        !rules.bottom,
        !rules.filters(key),
    ensures
        version(kept(s, rules), key, ts) == version(s, key, ts),
{
    compaction_keeps_or_drops_versions(s, rules, key, ts);
}

/// A compaction, also one into the bottom level, does not change what a reader at or above the
/// watermark reads of any user key that no filter gives up.
pub proof fn compaction_keeps_reads(s: Seq<Entry<KeyView>>, rules: RetentionRules, key: Seq<u8>, ts: u64)
    requires
        sorted(s),
        ts >= rules.watermark,
        !rules.filters(key),
    ensures
        read(kept(s, rules), key, ts) == read(s, key, ts),
{
    compaction_keeps_or_drops_versions(s, rules, key, ts);
}

/// Of the versions of a user key at or below the watermark a compaction keeps at most one.
pub proof fn one_old_version_is_kept(s: Seq<Entry<KeyView>>, rules: RetentionRules, i: int, j: int)
    requires
        sorted(s),
        0 <= i < j < s.len(),
        s[i].key.key == s[j].key.key,
        s[i].key.ts <= rules.watermark,
        s[j].key.ts <= rules.watermark,
    ensures
        !kept_at(s, j, rules),
{
    versions_are_one_run(s, i, j);
    assert(superseded(s, j, rules.watermark));
}

proof fn same_prefixes_filter_the_same(a: RetentionRules, b: RetentionRules, key: Seq<u8>)
    requires
        a.prefixes == b.prefixes,
    ensures
        a.filters(key) == b.filters(key),
{
    if a.filters(key) {
        let p = choose|p: int| 0 <= p < a.prefixes.len() && #[trigger] a.prefixes[p].is_prefix_of(key);
        assert(b.prefixes[p].is_prefix_of(key));
    }
    if b.filters(key) {
        let p = choose|p: int| 0 <= p < b.prefixes.len() && #[trigger] b.prefixes[p].is_prefix_of(key);
        assert(a.prefixes[p].is_prefix_of(key));
    }
}

/// At the bottom a compaction keeps the same as elsewhere, but for the deletions at or below the
/// watermark.
pub proof fn bottom_drops_deletions(s: Seq<Entry<KeyView>>, rules: RetentionRules, i: int)
    requires
        0 <= i < s.len(),
    ensures
        kept_at(s, i, RetentionRules { bottom: true, ..rules }) <==> kept_at(
            s,
            i,
            RetentionRules { bottom: false, ..rules },
        ) && !(s[i].key.ts <= rules.watermark && s[i].value.len() == 0),
{
    let bottom = RetentionRules { bottom: true, ..rules };
    let above = RetentionRules { bottom: false, ..rules };
    same_prefixes_filter_the_same(bottom, above, s[i].key.key);
}

/// What a compaction keeps under a higher watermark, it keeps under a lower one too.
pub proof fn higher_watermark_keeps_no_more(s: Seq<Entry<KeyView>>, rules: RetentionRules, lower: u64, i: int)
    requires
        0 <= i < s.len(),
        lower <= rules.watermark,
        kept_at(s, i, rules),
    ensures
        kept_at(s, i, RetentionRules { watermark: lower, ..rules }),
{
    let lowered = RetentionRules { watermark: lower, ..rules };
    same_prefixes_filter_the_same(lowered, rules, s[i].key.key);
    if superseded(s, i, lower) {
        let j = choose|j: int| 0 <= j < i && #[trigger] one_run(s, j, i) && s[j].key.ts <= lower;
        assert(one_run(s, j, i) && s[j].key.ts <= rules.watermark);
    }
}

/// What is kept once is kept again by the same rules.
proof fn kept_is_kept_again(s: Seq<Entry<KeyView>>, rules: RetentionRules, i: int)
    requires
        sorted(s),
        0 <= i < kept(s, rules).len(),
    ensures
        kept_at(kept(s, rules), i, rules),
{
    let k = kept(s, rules);
    kept_are_entries(s, s.len() as int, rules);
    kept_is_sorted(s, rules);
    assert(k.contains(k[i]));
    let m = choose|m: int| 0 <= m < s.len() && #[trigger] s[m] == k[i] && kept_at(s, m, rules);
    if k[i].key.ts <= rules.watermark && superseded(k, i, rules.watermark) {
        let j = choose|j: int| 0 <= j < i && #[trigger] one_run(k, j, i) && k[j].key.ts <= rules.watermark;
        assert(k[j].key.key == k[i].key.key);
        assert(k.contains(k[j]));
        let l = choose|l: int| 0 <= l < s.len() && #[trigger] s[l] == k[j] && kept_at(s, l, rules);
        assert(k[j].key.before(k[i].key));
        KeyView::before_is_asymmetric(k[j].key, k[i].key);
        assert(l < m);
        one_old_version_is_kept(s, rules, l, m);
    }
}

/// Compacting what a compaction kept, by the same rules, changes nothing.
pub proof fn compaction_is_idempotent(s: Seq<Entry<KeyView>>, rules: RetentionRules)
    requires
        sorted(s),
    ensures
        kept(kept(s, rules), rules) == kept(s, rules),
{
    let k = kept(s, rules);
    all_kept(s, k.len() as int, rules);
    assert(k.take(k.len() as int) =~= k);
}

proof fn all_kept(s: Seq<Entry<KeyView>>, n: int, rules: RetentionRules)
    requires
        sorted(s),
        0 <= n <= kept(s, rules).len(),
    ensures
        kept_of_first(kept(s, rules), n, rules) == kept(s, rules).take(n),
    decreases n,
{
    let k = kept(s, rules);
    if n > 0 {
        all_kept(s, n - 1, rules);
        kept_is_kept_again(s, rules, n - 1);
        assert(k.take(n) =~= k.take(n - 1).push(k[n - 1]));
    } else {
        assert(k.take(0) =~= Seq::empty());
    }
}

proof fn packed_first_holds_kept(
    s: Seq<Entry<KeyView>>,
    n: int,
    rules: RetentionRules,
    target: usize,
    size: spec_fn(Seq<Entry<KeyView>>) -> usize,
)
    requires
        0 <= n <= s.len(),
    ensures
        ({
            let (finished, filling) = packed_first(s, n, rules, target, size);
            finished.flatten() + filling == kept_of_first(s, n, rules)
        }),
    decreases n,
{
    if n > 0 {
        packed_first_holds_kept(s, n - 1, rules, target, size);
        let (finished, filling) = packed_first(s, n - 1, rules, target, size);
        let k = kept_of_first(s, n - 1, rules);
        finished.lemma_flatten_push(filling);
        assert(finished.push(filling).flatten() + seq![s[n - 1]] =~= k.push(s[n - 1]));
        assert(finished.flatten() + filling.push(s[n - 1]) =~= k.push(s[n - 1]));
    } else {
        let none: Seq<Seq<Entry<KeyView>>> = Seq::empty();
        assert(none.flatten() =~= Seq::empty());
        assert(none.flatten() + Seq::empty() =~= Seq::<Entry<KeyView>>::empty());
    }
}

/// The tables of a compaction, read one after another, hold what it keeps: nothing is lost between
/// them and nothing is written twice.
pub proof fn tables_hold_kept(
    s: Seq<Entry<KeyView>>,
    rules: RetentionRules,
    target: usize,
    size: spec_fn(Seq<Entry<KeyView>>) -> usize,
)
    ensures
        packed(s, rules, target, size).flatten() == kept(s, rules),
{
    packed_first_holds_kept(s, s.len() as int, rules, target, size);
    let (finished, filling) = packed_first(s, s.len() as int, rules, target, size);
    finished.lemma_flatten_push(filling);
}

/// Every table of a compaction but the last has reached the target size.
pub proof fn tables_reach_target(
    s: Seq<Entry<KeyView>>,
    rules: RetentionRules,
    target: usize,
    size: spec_fn(Seq<Entry<KeyView>>) -> usize,
    t: int,
)
    requires
        0 <= t < packed(s, rules, target, size).len() - 1,
    ensures
        size(packed(s, rules, target, size)[t]) >= target,
{
    finished_reach_target(s, s.len() as int, rules, target, size);
}

proof fn finished_reach_target(
    s: Seq<Entry<KeyView>>,
    n: int,
    rules: RetentionRules,
    target: usize,
    size: spec_fn(Seq<Entry<KeyView>>) -> usize,
)
    ensures
        forall|t: int|
            0 <= t < packed_first(s, n, rules, target, size).0.len() ==> size(
                #[trigger] packed_first(s, n, rules, target, size).0[t],
            ) >= target,
    decreases n,
{
    if n > 0 {
        finished_reach_target(s, n - 1, rules, target, size);
        let before = packed_first(s, n - 1, rules, target, size).0;
        let now = packed_first(s, n, rules, target, size).0;
        assert forall|t: int| 0 <= t < now.len() implies size(#[trigger] now[t]) >= target by {
            if t < before.len() {
                assert(now[t] == before[t]);
            }
        }
    }
}

/// All user keys of the first sequence come before all of the second.
pub open spec fn user_keys_before(a: Seq<Entry<KeyView>>, b: Seq<Entry<KeyView>>) -> bool {
    forall|i: int, j: int|
        0 <= i < a.len() && 0 <= j < b.len() ==> bytes_before(
            (#[trigger] a[i]).key.key,
            (#[trigger] b[j]).key.key,
        )
}

/// The entries are among the first `n` of `s`.
spec fn among_first(s: Seq<Entry<KeyView>>, n: int, part: Seq<Entry<KeyView>>) -> bool {
    forall|i: int| 0 <= i < part.len() ==> exists|m: int| 0 <= m < n && #[trigger] s[m] == #[trigger] part[i]
}

/// The parts of a compaction after `n` entries: what is finished lies before what is being filled.
spec fn parts_in_order(
    s: Seq<Entry<KeyView>>,
    n: int,
    finished: Seq<Seq<Entry<KeyView>>>,
    filling: Seq<Entry<KeyView>>,
) -> bool {
    &&& among_first(s, n, filling)
    &&& finished.len() > 0 ==> filling.len() > 0
    &&& forall|t: int| 0 <= t < finished.len() ==> among_first(s, n, #[trigger] finished[t])
    &&& forall|t: int| 0 <= t < finished.len() ==> user_keys_before(#[trigger] finished[t], filling)
    &&& forall|t: int, u: int|
        0 <= t < u < finished.len() ==> user_keys_before(#[trigger] finished[t], #[trigger] finished[u])
}

/// Where an entry of a sorted sequence starts a run, the user keys before it are smaller.
proof fn run_starts_after_smaller_keys(s: Seq<Entry<KeyView>>, m: int, i: int)
    requires
        sorted(s),
        0 <= m < i < s.len(),
        starts_run(s, i),
    ensures
        bytes_before(s[m].key.key, s[i].key.key),
{
    assert(s[m].key.before(s[i].key));
    if s[m].key.key == s[i].key.key {
        versions_are_one_run(s, m, i);
        assert(s[i - 1].key.key == s[i].key.key);
    }
}

proof fn packed_first_is_in_order(
    s: Seq<Entry<KeyView>>,
    n: int,
    rules: RetentionRules,
    target: usize,
    size: spec_fn(Seq<Entry<KeyView>>) -> usize,
)
    requires
        sorted(s),
        0 <= n <= s.len(),
    ensures
        ({
            let (finished, filling) = packed_first(s, n, rules, target, size);
            parts_in_order(s, n, finished, filling)
        }),
    decreases n,
{
    let (finished1, filling1) = packed_first(s, n, rules, target, size);
    if n > 0 {
        packed_first_is_in_order(s, n - 1, rules, target, size);
        let (finished, filling) = packed_first(s, n - 1, rules, target, size);
        let x = s[n - 1];
        assert(among_first(s, n, filling));
        assert forall|t: int| 0 <= t < finished.len() implies among_first(s, n, #[trigger] finished[t]) by {
            assert(among_first(s, n - 1, finished[t]));
        }
        if !kept_at(s, n - 1, rules) {
        } else if starts_run(s, n - 1) && size(filling) >= target {
            assert(among_first(s, n, filling1)) by {
                assert(s[n - 1] == filling1[0]);
            }
            assert forall|t: int| 0 <= t < finished1.len() implies among_first(s, n, #[trigger] finished1[t])
                && user_keys_before(finished1[t], filling1) by {
                let part = if t < finished.len() {
                    finished[t]
                } else {
                    filling
                };
                assert(finished1[t] == part);
                assert(among_first(s, n - 1, part));
                assert forall|i: int, j: int|
                    0 <= i < part.len() && 0 <= j < filling1.len() implies bytes_before(
                    (#[trigger] part[i]).key.key,
                    (#[trigger] filling1[j]).key.key,
                ) by {
                    let m = choose|m: int| 0 <= m < n - 1 && #[trigger] s[m] == part[i];
                    run_starts_after_smaller_keys(s, m, n - 1);
                }
            }
            assert forall|t: int, u: int| 0 <= t < u < finished1.len() implies user_keys_before(
                #[trigger] finished1[t],
                #[trigger] finished1[u],
            ) by {
                assert(finished1[t] == finished[t]);
                if u < finished.len() {
                    assert(finished1[u] == finished[u]);
                } else {
                    assert(finished1[u] == filling);
                }
            }
        } else {
            assert(among_first(s, n, filling1)) by {
                assert forall|i: int| 0 <= i < filling1.len() implies exists|m: int|
                    0 <= m < n && #[trigger] s[m] == #[trigger] filling1[i] by {
                    if i < filling.len() {
                        assert(filling1[i] == filling[i]);
                        let m = choose|m: int| 0 <= m < n - 1 && #[trigger] s[m] == filling[i];
                        assert(0 <= m < n && s[m] == filling1[i]);
                    } else {
                        assert(s[n - 1] == filling1[i]);
                    }
                }
            }
            assert forall|t: int| 0 <= t < finished.len() implies user_keys_before(
                #[trigger] finished[t],
                filling1,
            ) by {
                let part = finished[t];
                assert(user_keys_before(part, filling));
                assert forall|i: int, j: int|
                    0 <= i < part.len() && 0 <= j < filling1.len() implies bytes_before(
                    (#[trigger] part[i]).key.key,
                    (#[trigger] filling1[j]).key.key,
                ) by {
                    if j < filling.len() {
                        assert(filling1[j] == filling[j]);
                    } else {
                        let f = filling[0];
                        assert(bytes_before(part[i].key.key, f.key.key));
                        let m = choose|m: int| 0 <= m < n - 1 && #[trigger] s[m] == filling[0];
                        assert(s[m].key.before(x.key));
                        if f.key.key != x.key.key {
                            bytes_before_is_transitive(part[i].key.key, f.key.key, x.key.key);
                        }
                    }
                }
            }
        }
    }
}

/// The tables that a compaction makes of a sorted input are disjoint and in order: no user key has
/// versions in two of them.
pub proof fn tables_split_between_user_keys(
    s: Seq<Entry<KeyView>>,
    rules: RetentionRules,
    target: usize,
    size: spec_fn(Seq<Entry<KeyView>>) -> usize,
    t: int,
    u: int,
)
    requires
        sorted(s),
        0 <= t < u < packed(s, rules, target, size).len(),
    ensures
        user_keys_before(packed(s, rules, target, size)[t], packed(s, rules, target, size)[u]),
{
    packed_first_is_in_order(s, s.len() as int, rules, target, size);
}

} // verus!
