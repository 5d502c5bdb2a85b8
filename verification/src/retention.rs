//! What a compaction keeps of its input, and how it distributes that over tables.

use vstd::prelude::*;

use crate::fault::Fault;
use crate::key::KeyView;
use crate::merge::Entry;

verus! {

/// What decides about the entries of a compaction.
pub struct RetentionRules {
    /// Nothing lies below the level that is written to.
    pub bottom: bool,
    /// No reader looks at the state before this timestamp.
    pub watermark: u64,
    /// User keys that start with one of these are given up.
    pub prefixes: Seq<Seq<u8>>,
}

impl RetentionRules {
    /// The user key starts with one of the prefixes that are given up.
    pub open spec fn filters(self, key: Seq<u8>) -> bool {
        exists|p: int| 0 <= p < self.prefixes.len() && #[trigger] self.prefixes[p].is_prefix_of(key)
    }
}

/// The entries from `j` up to `i` are all versions of one user key.
pub open spec fn one_run(s: Seq<Entry<KeyView>>, j: int, i: int) -> bool {
    forall|m: int| j <= m <= i ==> (#[trigger] s[m]).key.key == s[i].key.key
}

/// Entry `i` is not a version of the same user key as the entry before it.
pub open spec fn starts_run(s: Seq<Entry<KeyView>>, i: int) -> bool {
    i == 0 || s[i - 1].key.key != s[i].key.key
}

/// Among the versions of the user key directly before entry `i` is one at or below the watermark.
pub open spec fn superseded(s: Seq<Entry<KeyView>>, i: int, watermark: u64) -> bool {
    exists|j: int| 0 <= j < i && #[trigger] one_run(s, j, i) && s[j].key.ts <= watermark
}

/// Entry `i` is kept: it is above the watermark, or it is the first version of its user key at or
/// below it, is no deletion that there is nothing left to hide from, and is not given up by a prefix.
pub open spec fn kept_at(s: Seq<Entry<KeyView>>, i: int, rules: RetentionRules) -> bool {
    s[i].key.ts > rules.watermark || {
        &&& !superseded(s, i, rules.watermark)
        &&& !(rules.bottom && s[i].value.len() == 0)
        &&& !rules.filters(s[i].key.key)
    }
}

/// The kept ones among the first `n` entries, in order.
pub open spec fn kept_of_first(s: Seq<Entry<KeyView>>, n: int, rules: RetentionRules) -> Seq<Entry<KeyView>>
    decreases n,
{
    if n <= 0 {
        Seq::empty()
    } else if kept_at(s, n - 1, rules) {
        kept_of_first(s, n - 1, rules).push(s[n - 1])
    } else {
        kept_of_first(s, n - 1, rules)
    }
}

/// The entries that a compaction keeps, in order.
pub open spec fn kept(s: Seq<Entry<KeyView>>, rules: RetentionRules) -> Seq<Entry<KeyView>> {
    kept_of_first(s, s.len() as int, rules)
}

/// The kept ones among the first `n` entries, distributed over tables: the contents of the finished
/// tables, and of the table that is being filled. A table is finished where an entry is to be added
/// that starts a run, and the table has reached the target size.
pub open spec fn packed_first(
    s: Seq<Entry<KeyView>>,
    n: int,
    rules: RetentionRules,
    target: usize,
    size: spec_fn(Seq<Entry<KeyView>>) -> usize,
) -> (Seq<Seq<Entry<KeyView>>>, Seq<Entry<KeyView>>)
    decreases n,
{
    if n <= 0 {
        (Seq::empty(), Seq::empty())
    } else {
        let (finished, filling) = packed_first(s, n - 1, rules, target, size);
        if !kept_at(s, n - 1, rules) {
            (finished, filling)
        } else if starts_run(s, n - 1) && size(filling) >= target {
            (finished.push(filling), seq![s[n - 1]])
        } else {
            (finished, filling.push(s[n - 1]))
        }
    }
}

/// The contents of the tables that a compaction writes. There is always a last table, even where
/// nothing is kept.
pub open spec fn packed(
    s: Seq<Entry<KeyView>>,
    rules: RetentionRules,
    target: usize,
    size: spec_fn(Seq<Entry<KeyView>>) -> usize,
) -> Seq<Seq<Entry<KeyView>>> {
    let (finished, filling) = packed_first(s, s.len() as int, rules, target, size);
    finished.push(filling)
}

/// How a compaction ends that fails: the error, and how many numbers for tables it has drawn.
#[verifier::ext_equal]
pub struct Stop {
    pub error: Seq<char>,
    pub drawn: nat,
}

/// How a compaction ends that fails at one of the first `n` entries. At each entry the table that is
/// being filled may have to be built, for which a number is drawn; `build_error` is the error that
/// building a table of these contents, after so many others, ends in. Then the input moves on by one.
pub open spec fn stopped_first(
    s: Seq<Entry<KeyView>>,
    n: int,
    rules: RetentionRules,
    target: usize,
    size: spec_fn(Seq<Entry<KeyView>>) -> usize,
    fault: Option<Fault>,
    build_error: spec_fn(nat, Seq<Entry<KeyView>>) -> Option<Seq<char>>,
) -> Option<Stop>
    decreases n,
{
    if n <= 0 {
        None
    } else {
        let before = stopped_first(s, n - 1, rules, target, size, fault, build_error);
        let (finished, filling) = packed_first(s, n - 1, rules, target, size);
        let built = kept_at(s, n - 1, rules) && starts_run(s, n - 1) && size(filling) >= target;
        if before is Some {
            before
        } else if built && build_error(finished.len(), filling) is Some {
            Some(Stop { error: build_error(finished.len(), filling)->0, drawn: finished.len() + 1 })
        } else if fault is Some && fault->0.after == n - 1 {
            Some(Stop { error: fault->0.error, drawn: packed_first(s, n, rules, target, size).0.len() })
        } else {
            None
        }
    }
}

/// A compaction that has failed stays so.
pub proof fn stop_stays(
    s: Seq<Entry<KeyView>>,
    m: int,
    n: int,
    rules: RetentionRules,
    target: usize,
    size: spec_fn(Seq<Entry<KeyView>>) -> usize,
    fault: Option<Fault>,
    build_error: spec_fn(nat, Seq<Entry<KeyView>>) -> Option<Seq<char>>,
)
    requires
        0 <= m <= n,
        stopped_first(s, m, rules, target, size, fault, build_error) is Some,
    ensures
        stopped_first(s, n, rules, target, size, fault, build_error) == stopped_first(
            s,
            m,
            rules,
            target,
            size,
            fault,
            build_error,
        ),
    decreases n,
{
    if m < n {
        stop_stays(s, m, n - 1, rules, target, size, fault, build_error);
    }
}

/// How a compaction ends that fails: at one of the entries, or when the last table is built.
pub open spec fn stopped(
    s: Seq<Entry<KeyView>>,
    rules: RetentionRules,
    target: usize,
    size: spec_fn(Seq<Entry<KeyView>>) -> usize,
    fault: Option<Fault>,
    build_error: spec_fn(nat, Seq<Entry<KeyView>>) -> Option<Seq<char>>,
) -> Option<Stop> {
    let before = stopped_first(s, s.len() as int, rules, target, size, fault, build_error);
    let (finished, filling) = packed_first(s, s.len() as int, rules, target, size);
    if before is Some {
        before
    } else if build_error(finished.len(), filling) is Some {
        Some(Stop { error: build_error(finished.len(), filling)->0, drawn: finished.len() + 1 })
    } else {
        None
    }
}

/// Whether a version of the user key of entry `i` at or below the watermark has come by, once entry
/// `i` has been looked at.
pub open spec fn settled(s: Seq<Entry<KeyView>>, i: int, watermark: u64) -> bool {
    superseded(s, i, watermark) || s[i].key.ts <= watermark
}

/// Whether an entry is superseded follows from the entry before it.
pub proof fn superseded_follows(s: Seq<Entry<KeyView>>, i: int, watermark: u64)
    requires
        0 <= i < s.len(),
    ensures
        superseded(s, i, watermark) == (!starts_run(s, i) && settled(s, i - 1, watermark)),
{
    if starts_run(s, i) {
        if superseded(s, i, watermark) {
            let j = choose|j: int| 0 <= j < i && #[trigger] one_run(s, j, i) && s[j].key.ts <= watermark;
            assert(s[i - 1].key.key == s[i].key.key);
        }
    } else {
        if superseded(s, i, watermark) {
            let j = choose|j: int| 0 <= j < i && #[trigger] one_run(s, j, i) && s[j].key.ts <= watermark;
            assert(one_run(s, j, i - 1));
        }
        if superseded(s, i - 1, watermark) {
            let j = choose|j: int| 0 <= j < i - 1 && #[trigger] one_run(s, j, i - 1) && s[j].key.ts <= watermark;
            assert(one_run(s, j, i));
        }
        if s[i - 1].key.ts <= watermark {
            assert(one_run(s, i - 1, i));
        }
    }
}

} // verus!
