//! Where reading breaks off, and with which error.

use std::sync::Arc;

use vstd::prelude::*;

use crate::key::KeyModel;
use crate::key::KeyView;
use crate::merge::first_is_a;
use crate::merge::first_of_merge;
use crate::merge::first_of_merge_all;
use crate::merge::is_first_part;
use crate::merge::merge_all;
use crate::merge::merge_all_of_empty_parts;
use crate::merge::pass_key;
use crate::merge::rest_of_merge_all;
use crate::merge::some_first_part;
use crate::merge::takes_from_b;
use crate::merge::Entry;
use crate::table::Table;

verus! {

/// Where a series of steps breaks off: so many of them succeed, and the one after them ends in the
/// error.
#[verifier::ext_equal]
pub struct Fault {
    pub after: nat,
    pub error: Seq<char>,
}

/// The very next step ends in an error.
pub open spec fn breaks(fault: Option<Fault>) -> bool {
    fault matches Some(f) && f.after == 0
}

/// The same fault, seen after one step that succeeded.
pub open spec fn stepped(fault: Option<Fault>) -> Option<Fault> {
    match fault {
        Some(f) => if f.after == 0 {
            None
        } else {
            Some(Fault { after: (f.after - 1) as nat, error: f.error })
        },
        None => None,
    }
}

/// The same fault, seen after `n` steps that succeeded.
pub open spec fn fault_after(fault: Option<Fault>, n: nat) -> Option<Fault> {
    match fault {
        Some(f) => if f.after < n {
            None
        } else {
            Some(Fault { after: (f.after - n) as nat, error: f.error })
        },
        None => None,
    }
}

/// The same fault, seen from one step earlier.
pub open spec fn later(fault: Option<Fault>) -> Option<Fault> {
    match fault {
        Some(f) => Some(Fault { after: f.after + 1, error: f.error }),
        None => None,
    }
}

/// The error that moving on from the first of the entries ends in. Where there is none left, there is
/// nothing to move on from.
pub open spec fn step_error<K>(entries: Seq<Entry<K>>, fault: Option<Fault>) -> Option<Seq<char>> {
    if entries.len() > 0 && breaks(fault) {
        Some(fault->0.error)
    } else {
        None
    }
}

/// The fault once the first of the entries has been passed.
pub open spec fn rest_fault<K>(entries: Seq<Entry<K>>, fault: Option<Fault>) -> Option<Fault> {
    if entries.len() == 0 {
        fault
    } else {
        stepped(fault)
    }
}

/// Where a merge of `a` and `b` breaks off. A step moves on in `a`, in `b`, or first in `a` and then in
/// `b`.
pub open spec fn merge_fault<K: KeyModel>(
    a: Seq<Entry<K>>,
    a_fault: Option<Fault>,
    b: Seq<Entry<K>>,
    b_fault: Option<Fault>,
) -> Option<Fault>
    decreases a.len() + b.len(),
{
    let from_a = first_is_a(a, b);
    let from_b = takes_from_b(a, b);
    if from_a && breaks(a_fault) {
        a_fault
    } else if from_b && breaks(b_fault) {
        b_fault
    } else if from_a && from_b {
        later(merge_fault(a.drop_first(), stepped(a_fault), b.drop_first(), stepped(b_fault)))
    } else if from_a {
        later(merge_fault(a.drop_first(), stepped(a_fault), b, b_fault))
    } else if from_b {
        later(merge_fault(a, a_fault, b.drop_first(), stepped(b_fault)))
    } else {
        None
    }
}

/// Where a merge of any number of sequences breaks off. A step moves on in the sequences one after
/// another.
pub open spec fn merge_all_fault<K: KeyModel>(parts: Seq<Seq<Entry<K>>>, faults: Seq<Option<Fault>>) -> Option<Fault>
    decreases parts.len(),
{
    if parts.len() == 0 {
        None
    } else {
        merge_fault(
            parts[0],
            faults[0],
            merge_all(parts.drop_first()),
            merge_all_fault(parts.drop_first(), faults.drop_first()),
        )
    }
}

/// The error of the first sequence that starts with the key and from whose first entry one cannot move
/// on.
pub open spec fn first_break<K: KeyModel>(parts: Seq<Seq<Entry<K>>>, faults: Seq<Option<Fault>>, key: K) -> Option<
    Seq<char>,
>
    decreases parts.len(),
{
    if parts.len() == 0 {
        None
    } else if parts[0].len() > 0 && parts[0][0].key == key && breaks(faults[0]) {
        Some(faults[0]->0.error)
    } else {
        first_break(parts.drop_first(), faults.drop_first(), key)
    }
}

/// The faults once every sequence that starts with the key has moved on.
pub open spec fn pass_faults<K: KeyModel>(
    parts: Seq<Seq<Entry<K>>>,
    faults: Seq<Option<Fault>>,
    key: K,
) -> Seq<Option<Fault>> {
    Seq::new(
        parts.len(),
        |i: int|
            if parts[i].len() > 0 && parts[i][0].key == key {
                stepped(faults[i])
            } else {
                faults[i]
            },
    )
}

proof fn nothing_breaks_off_elsewhere<K: KeyModel>(parts: Seq<Seq<Entry<K>>>, faults: Seq<Option<Fault>>, key: K)
    requires
        forall|j: int| 0 <= j < parts.len() && #[trigger] parts[j].len() > 0 ==> parts[j][0].key != key,
        faults.len() == parts.len(),
    ensures
        first_break(parts, faults, key) is None,
        pass_key(parts, key) == parts,
        pass_faults(parts, faults, key) == faults,
    decreases parts.len(),
{
    if parts.len() > 0 {
        let tail = parts.drop_first();
        assert forall|j: int| 0 <= j < tail.len() && #[trigger] tail[j].len() > 0 implies tail[j][0].key != key by {
            assert(tail[j] == parts[j + 1]);
        }
        nothing_breaks_off_elsewhere(tail, faults.drop_first(), key);
        assert(parts[0].len() > 0 ==> parts[0][0].key != key);
    }
    assert(pass_key(parts, key) =~= parts);
    assert(pass_faults(parts, faults, key) =~= faults);
}

/// A step of a merge ends in the error of the first sequence that cannot move on; where there is none,
/// the merge goes on with what is left.
pub proof fn step_of_merge_all<K: KeyModel>(parts: Seq<Seq<Entry<K>>>, faults: Seq<Option<Fault>>, i: int)
    requires
        is_first_part(parts, i),
        faults.len() == parts.len(),
    ensures
        match first_break(parts, faults, parts[i][0].key) {
            Some(error) => merge_all_fault(parts, faults) == Some(Fault { after: 0, error }),
            None => {
                &&& !breaks(merge_all_fault(parts, faults))
                &&& merge_all_fault(
                    pass_key(parts, parts[i][0].key),
                    pass_faults(parts, faults, parts[i][0].key),
                ) == stepped(merge_all_fault(parts, faults))
            },
        },
    decreases parts.len(),
{
    let k = parts[i][0].key;
    let tail = parts.drop_first();
    let tail_faults = faults.drop_first();
    let m = merge_all(tail);
    let m_fault = merge_all_fault(tail, tail_faults);
    let passed = pass_key(parts, k);
    let passed_faults = pass_faults(parts, faults, k);
    assert(passed.drop_first() =~= pass_key(tail, k));
    assert(passed_faults.drop_first() =~= pass_faults(tail, tail_faults, k));
    first_of_merge_all(parts, i);
    first_of_merge(parts[0], m);
    if k.before(k) {
        K::before_is_asymmetric(k, k);
    }
    assert(parts[0].len() > 0 ==> !parts[0][0].key.before(k));
    if exists|j: int| 0 <= j < tail.len() && #[trigger] tail[j].len() > 0 {
        let f = some_first_part(tail);
        first_of_merge_all(tail, f);
        assert(parts[f + 1] == tail[f]);
        if m[0].key == k {
            step_of_merge_all(tail, tail_faults, f);
            rest_of_merge_all(tail, f);
            assert(merge_all(passed.drop_first()) == m.drop_first());
            if parts[0].len() > 0 {
                K::before_is_total(parts[0][0].key, k);
                if k.before(parts[0][0].key) {
                    K::before_is_asymmetric(k, parts[0][0].key);
                }
            }
        } else {
            assert forall|j: int| 0 <= j < tail.len() && #[trigger] tail[j].len() > 0 implies tail[j][0].key != k by {
                if tail[j][0].key == k {
                    assert(parts[j + 1] == tail[j]);
                    K::before_is_total(k, m[0].key);
                }
            }
            nothing_breaks_off_elsewhere(tail, tail_faults, k);
            K::before_is_total(k, m[0].key);
            if i > 0 {
                assert(tail[i - 1] == parts[i]);
            }
            assert(i == 0 && k.before(m[0].key));
            K::before_is_asymmetric(k, m[0].key);
        }
    } else {
        merge_all_of_empty_parts(tail);
        nothing_breaks_off_elsewhere(tail, tail_faults, k);
        if i > 0 {
            assert(tail[i - 1] == parts[i]);
        }
    }
}

/// The faults of freshly opened tables.
pub open spec fn table_faults<T: Table>(tables: Seq<Arc<T>>) -> Seq<Option<Fault>> {
    tables.map_values(|table: Arc<T>| (*table).fault())
}

/// The error that opening the tables one after another, up to the first that has an entry, ends in.
pub open spec fn opening_error<T: Table>(tables: Seq<Arc<T>>) -> Option<Seq<char>>
    decreases tables.len(),
{
    if tables.len() == 0 {
        None
    } else if tables[0].open_error() is Some {
        tables[0].open_error()
    } else if tables[0].entries().len() > 0 {
        None
    } else {
        opening_error(tables.drop_first())
    }
}

/// Where reading breaks off that goes through `entries` and then through the tables one after another.
/// Moving on from the last entry of a table opens the next one that has an entry.
pub open spec fn concat_fault<T: Table>(
    entries: Seq<Entry<KeyView>>,
    fault: Option<Fault>,
    tables: Seq<Arc<T>>,
) -> Option<Fault>
    decreases tables.len(), entries.len(),
{
    if entries.len() == 0 {
        if tables.len() == 0 {
            None
        } else {
            concat_fault(tables[0].entries(), tables[0].fault(), tables.drop_first())
        }
    } else if breaks(fault) {
        fault
    } else if entries.len() == 1 && opening_error(tables) is Some {
        Some(Fault { after: 0, error: opening_error(tables)->0 })
    } else {
        later(concat_fault(entries.drop_first(), stepped(fault), tables))
    }
}

/// Where reading the tables one after another breaks off, once the first that has an entry is open.
pub open spec fn tables_fault<T: Table>(tables: Seq<Arc<T>>) -> Option<Fault> {
    concat_fault(Seq::empty(), None, tables)
}

} // verus!
