//! What merging iterators and iterators over tables show, step by step and in all.

use std::sync::Arc;

use vstd::prelude::*;

use crate::error::StorageError;
use crate::fault::concat_fault;
use crate::fault::merge_all_fault;
use crate::fault::merge_fault;
use crate::fault::opening_error;
use crate::fault::stepped;
use crate::fault::tables_fault;
use crate::fault::Fault;
use crate::iterators::concat_iterator::SstConcatIterator;
use crate::iterators::merge_iterator::MergeIterator;
use crate::iterators::two_merge_iterator::TwoMergeIterator;
use crate::iterators::StorageIterator;
use crate::key::KeyModel;
use crate::key::KeyView;
use crate::key::StorageKey;
use crate::merge::has_key;
use crate::merge::is_preferred;
use crate::merge::merge;
use crate::merge::merge_all;
use crate::merge::merge_all_prefers_earlier;
use crate::merge::merge_prefers_a;
use crate::merge::sorted;
use crate::merge::Entry;
use crate::table::contents;
use crate::table::Table;

verus! {

/// The keys go up.
pub open spec fn ascending<K: KeyModel>(s: Seq<Entry<K>>) -> bool {
    forall|i: int, j: int| 0 <= i < j < s.len() ==> (#[trigger] s[i]).key.before((#[trigger] s[j]).key)
}

/// Some entry has this key.
pub open spec fn holds_key<K: KeyModel>(s: Seq<Entry<K>>, key: K) -> bool {
    exists|x: Entry<K>| #[trigger] s.contains(x) && x.key == key
}

/// The first iterator has an entry, and the second one none before it.
pub open spec fn a_is_next<K: KeyModel>(a: Seq<Entry<K>>, b: Seq<Entry<K>>) -> bool {
    a.len() > 0 && (b.len() > 0 ==> !b[0].key.before(a[0].key))
}

/// The second iterator has an entry, and the first one none before it.
pub open spec fn b_is_passed<K: KeyModel>(a: Seq<Entry<K>>, b: Seq<Entry<K>>) -> bool {
    b.len() > 0 && (a.len() > 0 ==> !a[0].key.before(b[0].key))
}

proof fn holds_key_is_has_key<K: KeyModel>(s: Seq<Entry<K>>, key: K)
    ensures
        holds_key(s, key) <==> has_key(s, key),
{
    if holds_key(s, key) {
        let x = choose|x: Entry<K>| #[trigger] s.contains(x) && x.key == key;
        let i = choose|i: int| 0 <= i < s.len() && s[i] == x;
        assert(s[i].key == key);
    }
    if has_key(s, key) {
        let i = choose|i: int| 0 <= i < s.len() && (#[trigger] s[i]).key == key;
        assert(s.contains(s[i]));
    }
}

/// Merging two iterators always succeeds, and takes both as they are.
pub proof fn two_merge_takes_both<
    A: 'static + StorageIterator,
    B: 'static + for<'a> StorageIterator<Model = A::Model, KeyType<'a> = A::KeyType<'a>>,
>(a: A, b: B, result: Result<TwoMergeIterator<A, B>, StorageError>)
    requires
        call_ensures(TwoMergeIterator::<A, B>::create, (a, b), result),
    ensures
        result matches Ok(merged) && merged.a() == a && merged.b() == b && merged.inv(),
{
}

/// The entry shown is that of the first iterator where it is next, and else that of the second; there is
/// one while either has one.
pub proof fn two_merge_shows_the_smaller<
    A: 'static + StorageIterator,
    B: 'static + for<'a> StorageIterator<Model = A::Model, KeyType<'a> = A::KeyType<'a>>,
>(merged: TwoMergeIterator<A, B>, key: A::KeyType<'_>, value: &[u8], valid: bool)
    requires
        call_ensures(<TwoMergeIterator<A, B> as StorageIterator>::key, (&merged,), key),
        call_ensures(<TwoMergeIterator<A, B> as StorageIterator>::value, (&merged,), value),
        call_ensures(<TwoMergeIterator<A, B> as StorageIterator>::is_valid, (&merged,), valid),
    ensures
        valid <==> merged.a().entries().len() > 0 || merged.b().entries().len() > 0,
        a_is_next(merged.a().entries(), merged.b().entries()) ==> key.model() == merged.a().entries()[0].key && value@
            == merged.a().entries()[0].value,
        valid && !a_is_next(merged.a().entries(), merged.b().entries()) ==> key.model()
            == merged.b().entries()[0].key && value@ == merged.b().entries()[0].value,
{
}

/// The fault of an iterator after it has moved on by one.
pub open spec fn one_step_nearer(before: Option<Fault>, after: Option<Fault>) -> bool {
    match before {
        Some(f) => f.after > 0 && after is Some && after->0.after == f.after - 1 && after->0.error == f.error,
        None => after is None,
    }
}

/// The iterator cannot move on from where it stands.
pub open spec fn is_stuck<I: StorageIterator>(iter: I) -> bool {
    iter.fault() matches Some(f) && f.after == 0
}

/// The iterator has moved on by one.
pub open spec fn moved_on<I: StorageIterator>(before: I, after: I) -> bool {
    &&& before.entries().len() > 0
    &&& after.entries() == before.entries().subrange(1, before.entries().len() as int)
    &&& one_step_nearer(before.fault(), after.fault())
}

/// A step of two merged iterators moves the one shown, and the second one also where both stand at the
/// same key; the first one moves first, and where it fails the second one stays.
pub proof fn two_merge_moves_those_shown<
    A: 'static + StorageIterator,
    B: 'static + for<'a> StorageIterator<Model = A::Model, KeyType<'a> = A::KeyType<'a>>,
>(merged: &mut TwoMergeIterator<A, B>, result: Result<(), StorageError>)
    requires
        call_ensures(<TwoMergeIterator<A, B> as StorageIterator>::next, (merged,), result),
    ensures
        ({
            let a = old(merged).a();
            let b = old(merged).b();
            let a_moves = a_is_next(a.entries(), b.entries());
            let b_moves = b_is_passed(a.entries(), b.entries());
            &&& a_moves && is_stuck(a) ==> (result matches Err(e) && e@ == a.fault()->0.error) && final(merged).b() == b
            &&& !(a_moves && is_stuck(a)) && b_moves && is_stuck(b) ==> (result matches Err(e) && e@
                == b.fault()->0.error) && (a_moves ==> moved_on(a, final(merged).a()))
            &&& !(a_moves && is_stuck(a)) && !(b_moves && is_stuck(b)) ==> {
                &&& result is Ok
                &&& a_moves ==> moved_on(a, final(merged).a())
                &&& b_moves ==> moved_on(b, final(merged).b())
            }
            &&& !a_moves ==> final(merged).a() == a
            &&& !b_moves ==> final(merged).b() == b
        }),
{
}

/// Two iterators whose keys go up are merged into one whose keys go up, with every key of either once
/// and the entry of the first where both have the key.
pub proof fn two_merge_prefers_the_first<
    A: 'static + StorageIterator,
    B: 'static + for<'a> StorageIterator<Model = A::Model, KeyType<'a> = A::KeyType<'a>>,
>(merged: TwoMergeIterator<A, B>)
    requires
        ascending(merged.a().entries()),
        ascending(merged.b().entries()),
    ensures
        ascending(merged.entries()),
        forall|e: Entry<A::Model>| #[trigger]
            merged.entries().contains(e) <==> merged.a().entries().contains(e) || (merged.b().entries().contains(e)
                && !holds_key(merged.a().entries(), e.key)),
{
    let a = merged.a().entries();
    let b = merged.b().entries();
    assert(sorted(a) && sorted(b));
    merge_prefers_a(a, b);
    assert forall|e: Entry<A::Model>| #[trigger] merged.entries().contains(e) <==> a.contains(e) || (b.contains(e)
        && !holds_key(a, e.key)) by {
        holds_key_is_has_key(a, e.key);
    }
}

/// The entry is in iterator `i`, and no earlier one has its key.
pub open spec fn first_to_hold<I: StorageIterator>(iters: Seq<Box<I>>, i: int, e: Entry<I::Model>) -> bool {
    &&& 0 <= i < iters.len()
    &&& iters[i].entries().contains(e)
    &&& forall|j: int| 0 <= j < i ==> !holds_key((#[trigger] iters[j]).entries(), e.key)
}

/// Iterators whose keys go up are merged into one whose keys go up, with the entry of the first that has
/// the key.
pub proof fn merge_prefers_the_first<I: 'static + StorageIterator>(iters: Vec<Box<I>>, merged: MergeIterator<I>)
    requires
        call_ensures(MergeIterator::<I>::create, (iters,), merged),
        forall|i: int| 0 <= i < iters@.len() ==> ascending((#[trigger] iters@[i]).entries()),
    ensures
        merged.inv(),
        ascending(merged.entries()),
        forall|e: Entry<I::Model>| #[trigger]
            merged.entries().contains(e) <==> exists|i: int| #[trigger] first_to_hold(iters@, i, e),
{
    let parts = crate::iterators::merge_iterator::parts_of(iters@);
    assert forall|i: int| 0 <= i < parts.len() implies sorted(#[trigger] parts[i]) by {
        assert(ascending(iters@[i].entries()));
    }
    merge_all_prefers_earlier(parts);
    assert forall|e: Entry<I::Model>| #[trigger] merged.entries().contains(e) <==> exists|i: int| #[trigger]
        first_to_hold(iters@, i, e) by {
        if exists|i: int| #[trigger] is_preferred(parts, i, e) {
            let i = choose|i: int| #[trigger] is_preferred(parts, i, e);
            assert forall|j: int| 0 <= j < i implies !holds_key((#[trigger] iters@[j]).entries(), e.key) by {
                holds_key_is_has_key(iters@[j].entries(), e.key);
                assert(!has_key(parts[j], e.key));
            }
            assert(first_to_hold(iters@, i, e));
        }
        if exists|i: int| #[trigger] first_to_hold(iters@, i, e) {
            let i = choose|i: int| #[trigger] first_to_hold(iters@, i, e);
            assert forall|j: int| 0 <= j < i implies !has_key(#[trigger] parts[j], e.key) by {
                holds_key_is_has_key(iters@[j].entries(), e.key);
                assert(!holds_key(iters@[j].entries(), e.key));
            }
            assert(is_preferred(parts, i, e));
        }
    }
}

/// Table `i` is the first of these that has an entry or cannot be opened.
pub open spec fn first_to_matter<T: Table>(tables: Seq<Arc<T>>, i: int) -> bool {
    &&& 0 <= i < tables.len()
    &&& tables[i].open_error() is Some || tables[i].entries().len() > 0
    &&& forall|j: int| 0 <= j < i ==> (#[trigger] tables[j]).open_error() is None && tables[j].entries().len() == 0
}

pub proof fn opening_stops_at_first_to_matter<T: Table>(tables: Seq<Arc<T>>, i: int)
    requires
        first_to_matter(tables, i),
    ensures
        opening_error(tables) == tables[i].open_error(),
    decreases i,
{
    if i > 0 {
        let tail = tables.drop_first();
        assert(tables[0].open_error() is None && tables[0].entries().len() == 0);
        assert forall|j: int| 0 <= j < i - 1 implies (#[trigger] tail[j]).open_error() is None
            && tail[j].entries().len() == 0 by {
            assert(tail[j] == tables[j + 1]);
        }
        assert(tail[i - 1] == tables[i]);
        opening_stops_at_first_to_matter(tail, i - 1);
    }
}

pub proof fn opening_passes_empty_tables<T: Table>(tables: Seq<Arc<T>>)
    requires
        forall|j: int|
            0 <= j < tables.len() ==> (#[trigger] tables[j]).open_error() is None && tables[j].entries().len() == 0,
    ensures
        opening_error(tables) is None,
    decreases tables.len(),
{
    if tables.len() > 0 {
        let tail = tables.drop_first();
        assert(tables[0].open_error() is None && tables[0].entries().len() == 0);
        assert forall|j: int| 0 <= j < tail.len() implies (#[trigger] tail[j]).open_error() is None
            && tail[j].entries().len() == 0 by {
            assert(tail[j] == tables[j + 1]);
        }
        opening_passes_empty_tables(tail);
    }
}

/// Tables that are read in turn are opened up to the first that has an entry. Where one of these cannot
/// be opened, its error is the answer; else all that the tables hold is shown, one after another.
pub proof fn concat_reads_tables_in_turn<T: 'static + Table>(
    tables: Vec<Arc<T>>,
    result: Result<SstConcatIterator<T>, StorageError>,
)
    requires
        call_ensures(SstConcatIterator::<T>::create_and_seek_to_first, (tables,), result),
    ensures
        forall|i: int| #[trigger]
            first_to_matter(tables@, i) ==> match tables@[i].open_error() {
                Some(error) => result matches Err(e) && e@ == error,
                None => result is Ok,
            },
        (forall|j: int|
            0 <= j < tables@.len() ==> (#[trigger] tables@[j]).open_error() is None && tables@[j].entries().len() == 0)
            ==> result is Ok,
        result matches Ok(iter) ==> iter.inv() && iter.entries() == Seq::new(
            tables@.len(),
            |i: int| tables@[i].entries(),
        ).flatten(),
{
    assert forall|i: int| #[trigger] first_to_matter(tables@, i) implies match tables@[i].open_error() {
        Some(error) => result matches Err(e) && e@ == error,
        None => result is Ok,
    } by {
        opening_stops_at_first_to_matter(tables@, i);
    }
    if forall|j: int|
        0 <= j < tables@.len() ==> (#[trigger] tables@[j]).open_error() is None && tables@[j].entries().len() == 0 {
        opening_passes_empty_tables(tables@);
    }
    assert(Seq::new(tables@.len(), |i: int| tables@[i].entries()) =~= contents(tables@));
}

/// The table opens, and can be read to its end.
pub open spec fn reads_through<T: Table>(table: T) -> bool {
    table.open_error() is None && table.fault() is None
}

proof fn concat_fault_in_place<T: Table>(entries: Seq<Entry<KeyView>>, tables: Seq<Arc<T>>, t: int)
    requires
        0 <= t < tables.len(),
        forall|j: int| 0 <= j < t ==> reads_through(*#[trigger] tables[j]),
    ensures
        ({
            let before = entries.len() + contents(tables.take(t)).flatten().len();
            &&& tables[t].open_error() is None && tables[t].fault() is Some && tables[t].fault()->0.after
                < tables[t].entries().len() ==> concat_fault(entries, None, tables) == Some(
                Fault { after: before + tables[t].fault()->0.after, error: tables[t].fault()->0.error },
            )
            &&& tables[t].open_error() is Some && before > 0 ==> concat_fault(entries, None, tables) == Some(
                Fault { after: (before - 1) as nat, error: tables[t].open_error()->0 },
            )
            &&& tables[t].open_error() is Some && before == entries.len() ==> opening_error(tables) == tables[t].open_error()
            &&& before > entries.len() ==> opening_error(tables) is None
            &&& tables[t].open_error() is None && tables[t].entries().len() > 0 ==> opening_error(tables) is None
        }),
    decreases tables.len(), entries.len(),
{
    let flat = contents(tables.take(t)).flatten();
    if entries.len() > 0 {
        concat_fault_in_place(entries.drop_first(), tables, t);
    }
    let tail = tables.drop_first();
    if t == 0 {
        assert(contents(tables.take(0)) =~= Seq::empty());
        assert(flat =~= Seq::empty());
        if entries.len() == 0 && tables[0].fault() is Some && tables[0].fault()->0.after < tables[0].entries().len() {
            own_fault(tables[0].entries(), tables[0].fault()->0, tail);
        }
    } else {
        assert(reads_through(*tables[0]));
        assert forall|j: int| 0 <= j < t - 1 implies reads_through(*#[trigger] tail[j]) by {
            assert(tail[j] == tables[j + 1]);
        }
        concat_fault_in_place(tables[0].entries(), tail, t - 1);
        assert(tail[t - 1] == tables[t]);
        assert(contents(tables.take(t)).drop_first() =~= contents(tail.take(t - 1)));
        assert(contents(tables.take(t)).first() == tables[0].entries());
        assert(flat == tables[0].entries() + contents(tail.take(t - 1)).flatten());
    }
}

proof fn own_fault<T: Table>(entries: Seq<Entry<KeyView>>, fault: Fault, tables: Seq<Arc<T>>)
    requires
        fault.after < entries.len(),
    ensures
        concat_fault(entries, Some(fault), tables) == Some(fault),
    decreases entries.len(),
{
    if fault.after > 0 {
        own_fault(
            entries.drop_first(),
            Fault { after: (fault.after - 1) as nat, error: fault.error },
            tables,
        );
    }
}

/// Reading tables in turn breaks off where the first table that cannot be read through breaks off, or
/// when that table is to be opened.
pub proof fn concat_breaks_off_at_first_fault<T: Table>(tables: Seq<Arc<T>>, t: int)
    requires
        0 <= t < tables.len(),
        forall|j: int| 0 <= j < t ==> reads_through(*#[trigger] tables[j]),
    ensures
        ({
            let before = Seq::new(t as nat, |i: int| tables[i].entries()).flatten().len();
            &&& tables[t].open_error() is None && tables[t].fault() is Some && tables[t].fault()->0.after
                < tables[t].entries().len() ==> tables_fault(tables) == Some(
                Fault { after: before + tables[t].fault()->0.after, error: tables[t].fault()->0.error },
            )
            &&& tables[t].open_error() is Some && before > 0 ==> tables_fault(tables) == Some(
                Fault { after: (before - 1) as nat, error: tables[t].open_error()->0 },
            )
        }),
{
    concat_fault_in_place(Seq::empty(), tables, t);
    assert(Seq::new(t as nat, |i: int| tables[i].entries()) =~= contents(tables.take(t)));
}

/// Merging two sequences in any order goes from front to front.
pub proof fn merging_goes_from_front_to_front<K: KeyModel>(a: Seq<Entry<K>>, b: Seq<Entry<K>>)
    ensures
        a.len() == 0 && b.len() == 0 ==> merge(a, b).len() == 0,
        a.len() > 0 && (b.len() > 0 ==> a[0].key.before(b[0].key)) ==> merge(a, b) == seq![a[0]] + merge(
            a.drop_first(),
            b,
        ),
        b.len() > 0 && (a.len() > 0 ==> b[0].key.before(a[0].key)) ==> merge(a, b) == seq![b[0]] + merge(
            a,
            b.drop_first(),
        ),
        a.len() > 0 && b.len() > 0 && a[0].key == b[0].key ==> merge(a, b) == seq![a[0]] + merge(
            a.drop_first(),
            b.drop_first(),
        ),
{
    if a.len() > 0 && b.len() > 0 {
        if a[0].key.before(b[0].key) {
            K::before_is_asymmetric(a[0].key, b[0].key);
        }
        if b[0].key.before(a[0].key) {
            K::before_is_asymmetric(b[0].key, a[0].key);
        }
    } else if a.len() > 0 {
        assert(merge(a.drop_first(), b) =~= a.drop_first());
        assert(a =~= seq![a[0]] + a.drop_first());
    } else if b.len() > 0 {
        assert(b =~= seq![b[0]] + b.drop_first());
    }
}

/// Merging any number of sequences in any order is merging the first with the merge of the others.
pub proof fn merging_many_is_merging_two_by_two<K: KeyModel>(first: Seq<Entry<K>>, others: Seq<Seq<Entry<K>>>)
    ensures
        merge_all(Seq::<Seq<Entry<K>>>::empty()).len() == 0,
        merge_all(seq![first] + others) == merge(first, merge_all(others)),
{
    assert((seq![first] + others).drop_first() =~= others);
}

/// A merge of two breaks off at once where the front that it has to pass cannot be passed, the first one
/// before the second; else one step later than what is left.
pub proof fn merging_breaks_off_with_a_front<K: KeyModel>(
    a: Seq<Entry<K>>,
    fa: Option<Fault>,
    b: Seq<Entry<K>>,
    fb: Option<Fault>,
)
    ensures
        a.len() == 0 && b.len() == 0 ==> merge_fault(a, fa, b, fb) is None,
        a_is_next(a, b) && (fa matches Some(f) && f.after == 0) ==> merge_fault(a, fa, b, fb) == fa,
        !(a_is_next(a, b) && (fa matches Some(f) && f.after == 0)) && b_is_passed(a, b) && (fb matches Some(f)
            && f.after == 0) ==> merge_fault(a, fa, b, fb) == fb,
        a_is_next(a, b) && !(fa matches Some(f) && f.after == 0) && !b_is_passed(a, b) ==> one_step_nearer(
            merge_fault(a, fa, b, fb),
            merge_fault(a.drop_first(), stepped(fa), b, fb),
        ),
        !a_is_next(a, b) && b_is_passed(a, b) && !(fb matches Some(f) && f.after == 0) ==> one_step_nearer(
            merge_fault(a, fa, b, fb),
            merge_fault(a, fa, b.drop_first(), stepped(fb)),
        ),
        a_is_next(a, b) && b_is_passed(a, b) && !(fa matches Some(f) && f.after == 0) && !(fb matches Some(f) && f.after
            == 0) ==> one_step_nearer(
            merge_fault(a, fa, b, fb),
            merge_fault(a.drop_first(), stepped(fa), b.drop_first(), stepped(fb)),
        ),
        one_step_nearer(fa, stepped(fa)) || (fa matches Some(f) && f.after == 0),
{
}

/// A merge of any number breaks off as one of the first with the merge of the others does.
pub proof fn merging_many_breaks_off_as_two<K: KeyModel>(
    first: Seq<Entry<K>>,
    fault: Option<Fault>,
    others: Seq<Seq<Entry<K>>>,
    faults: Seq<Option<Fault>>,
)
    ensures
        merge_all_fault(Seq::<Seq<Entry<K>>>::empty(), Seq::empty()) is None,
        merge_all_fault(seq![first] + others, seq![fault] + faults) == merge_fault(
            first,
            fault,
            merge_all(others),
            merge_all_fault(others, faults),
        ),
{
    assert((seq![first] + others).drop_first() =~= others);
    assert((seq![fault] + faults).drop_first() =~= faults);
}

} // verus!
