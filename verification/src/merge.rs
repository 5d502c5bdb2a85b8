//! What merging and concatenating sequences of entries means.

use vstd::prelude::*;

use crate::key::KeyModel;

verus! {

/// A key with the value stored under it.
#[verifier::ext_equal]
pub struct Entry<K> {
    pub key: K,
    pub value: Seq<u8>,
}

/// What is left of `s` after its first item; nothing is left of the empty sequence.
pub open spec fn rest<T>(s: Seq<T>) -> Seq<T> {
    if s.len() == 0 {
        s
    } else {
        s.drop_first()
    }
}

/// Merges `a` and `b` from the front: the smaller of the two first keys goes out first. Where both
/// first keys are equal the entry of `a` goes out and the one of `b` is passed over.
pub open spec fn merge<K: KeyModel>(a: Seq<Entry<K>>, b: Seq<Entry<K>>) -> Seq<Entry<K>>
    decreases a.len() + b.len(),
{
    if a.len() == 0 {
        b
    } else if b.len() == 0 {
        a
    } else if a[0].key.before(b[0].key) {
        seq![a[0]] + merge(a.drop_first(), b)
    } else if b[0].key.before(a[0].key) {
        seq![b[0]] + merge(a, b.drop_first())
    } else {
        seq![a[0]] + merge(a.drop_first(), b.drop_first())
    }
}

/// Whether the first entry of the merged sequence is the first one of `a`.
pub open spec fn first_is_a<K: KeyModel>(a: Seq<Entry<K>>, b: Seq<Entry<K>>) -> bool {
    a.len() > 0 && (b.len() == 0 || !b[0].key.before(a[0].key))
}

/// Whether taking the first entry of the merged sequence uses up the first one of `b`.
pub open spec fn takes_from_b<K: KeyModel>(a: Seq<Entry<K>>, b: Seq<Entry<K>>) -> bool {
    b.len() > 0 && (a.len() == 0 || !a[0].key.before(b[0].key))
}

/// The merged sequence starts with the entry that `first_is_a` tells, and is empty only where both are.
pub proof fn first_of_merge<K: KeyModel>(a: Seq<Entry<K>>, b: Seq<Entry<K>>)
    ensures
        merge(a, b).len() == 0 <==> a.len() == 0 && b.len() == 0,
        first_is_a(a, b) ==> merge(a, b)[0] == a[0],
        b.len() > 0 && !first_is_a(a, b) ==> merge(a, b)[0] == b[0],
{
    if a.len() > 0 && b.len() > 0 && b[0].key.before(a[0].key) {
        K::before_is_asymmetric(b[0].key, a[0].key);
    }
}

/// Merges any number of sequences. Of entries with one key the one from the earliest sequence is
/// preferred.
pub open spec fn merge_all<K: KeyModel>(parts: Seq<Seq<Entry<K>>>) -> Seq<Entry<K>>
    decreases parts.len(),
{
    if parts.len() == 0 {
        Seq::empty()
    } else {
        merge(parts[0], merge_all(parts.drop_first()))
    }
}

/// `parts` with the first entry taken away wherever its key is `key`.
pub open spec fn pass_key<K: KeyModel>(parts: Seq<Seq<Entry<K>>>, key: K) -> Seq<Seq<Entry<K>>> {
    parts.map_values(|s: Seq<Entry<K>>| if s.len() > 0 && s[0].key == key { s.drop_first() } else { s })
}

/// The part that holds the next entry of the merge: no part starts with a smaller key, and no
/// earlier part with the same one.
pub open spec fn is_first_part<K: KeyModel>(parts: Seq<Seq<Entry<K>>>, i: int) -> bool {
    &&& 0 <= i < parts.len()
    &&& parts[i].len() > 0
    &&& forall|j: int|
        0 <= j < parts.len() && #[trigger] parts[j].len() > 0 ==> !parts[j][0].key.before(parts[i][0].key)
    &&& forall|j: int| 0 <= j < i && #[trigger] parts[j].len() > 0 ==> parts[i][0].key.before(parts[j][0].key)
}

/// Merging nothing but empty parts gives nothing.
pub proof fn merge_all_of_empty_parts<K: KeyModel>(parts: Seq<Seq<Entry<K>>>)
    requires
        forall|j: int| 0 <= j < parts.len() ==> #[trigger] parts[j].len() == 0,
    ensures
        merge_all(parts).len() == 0,
    decreases parts.len(),
{
    if parts.len() > 0 {
        merge_all_of_empty_parts(parts.drop_first());
    }
}

/// The merge starts with the first entry of its first part.
pub proof fn first_of_merge_all<K: KeyModel>(parts: Seq<Seq<Entry<K>>>, i: int)
    requires
        is_first_part(parts, i),
    ensures
        merge_all(parts).len() > 0,
        merge_all(parts)[0] == parts[i][0],
    decreases parts.len(),
{
    let tail = parts.drop_first();
    first_of_merge(parts[0], merge_all(tail));
    if i == 0 {
        if forall|j: int| 0 <= j < tail.len() ==> #[trigger] tail[j].len() == 0 {
            merge_all_of_empty_parts(tail);
        } else {
            let j = some_first_part(tail);
            first_of_merge_all(tail, j);
            assert(parts[j + 1] == tail[j]);
        }
    } else {
        assert(is_first_part(tail, i - 1)) by {
            assert forall|j: int| 0 <= j < tail.len() && #[trigger] tail[j].len() > 0 implies !tail[j][0].key.before(
                tail[i - 1][0].key,
            ) by {
                assert(parts[j + 1] == tail[j]);
            }
            assert forall|j: int| 0 <= j < i - 1 && #[trigger] tail[j].len() > 0 implies tail[i - 1][0].key.before(
                tail[j][0].key,
            ) by {
                assert(parts[j + 1] == tail[j]);
            }
        }
        first_of_merge_all(tail, i - 1);
    }
}

/// Where some part has an entry, one of the parts is the first.
pub proof fn some_first_part<K: KeyModel>(parts: Seq<Seq<Entry<K>>>) -> (i: int)
    requires
        exists|j: int| 0 <= j < parts.len() && #[trigger] parts[j].len() > 0,
    ensures
        is_first_part(parts, i),
    decreases parts.len(),
{
    let tail = parts.drop_first();
    if forall|j: int| 0 <= j < tail.len() ==> #[trigger] tail[j].len() == 0 {
        assert forall|j: int| 0 < j < parts.len() implies #[trigger] parts[j].len() == 0 by {
            assert(tail[j - 1] == parts[j]);
        }
        if parts[0].len() > 0 {
            let k = parts[0][0].key;
            if k.before(k) {
                K::before_is_asymmetric(k, k);
            }
        }
        0
    } else {
        let i = some_first_part(tail);
        let k = tail[i][0].key;
        assert(parts[i + 1] == tail[i]);
        assert forall|j: int| 0 < j < parts.len() && #[trigger] parts[j].len() > 0 implies !parts[j][0].key.before(
            k,
        ) by {
            assert(tail[j - 1] == parts[j]);
        }
        if parts[0].len() > 0 && !k.before(parts[0][0].key) {
            let h = parts[0][0].key;
            if h.before(h) {
                K::before_is_asymmetric(h, h);
            }
            K::before_is_total(h, k);
            assert forall|j: int| 0 <= j < parts.len() && #[trigger] parts[j].len() > 0 implies !parts[j][0].key.before(
                h,
            ) by {
                if parts[j][0].key.before(h) && h.before(k) {
                    K::before_is_transitive(parts[j][0].key, h, k);
                }
            }
            0
        } else {
            assert forall|j: int| 0 <= j < i + 1 && #[trigger] parts[j].len() > 0 implies k.before(
                parts[j][0].key,
            ) by {
                if j > 0 {
                    assert(tail[j - 1] == parts[j]);
                }
            }
            if parts[0].len() > 0 {
                K::before_is_asymmetric(k, parts[0][0].key);
            }
            i + 1
        }
    }
}

/// Taking the first entry away from the merge takes its key away from the front of every part.
pub proof fn rest_of_merge_all<K: KeyModel>(parts: Seq<Seq<Entry<K>>>, i: int)
    requires
        is_first_part(parts, i),
    ensures
        merge_all(pass_key(parts, parts[i][0].key)) == rest(merge_all(parts)),
    decreases parts.len(),
{
    let k = parts[i][0].key;
    let tail = parts.drop_first();
    let m = merge_all(tail);
    let passed = pass_key(parts, k);
    assert(passed.drop_first() =~= pass_key(tail, k));
    first_of_merge_all(parts, i);
    first_of_merge(parts[0], m);
    if k.before(k) {
        K::before_is_asymmetric(k, k);
    }
    if exists|j: int| 0 <= j < tail.len() && #[trigger] tail[j].len() > 0 {
        let f = some_first_part(tail);
        first_of_merge_all(tail, f);
        assert(parts[f + 1] == tail[f]);
        assert(m[0].key == tail[f][0].key);
        if m[0].key == k {
            rest_of_merge_all(tail, f);
            assert(merge_all(passed.drop_first()) == rest(m));
            assert(merge_all(passed) =~= rest(merge_all(parts)));
        } else {
            assert(pass_key(tail, k) =~= tail) by {
                assert forall|j: int| 0 <= j < tail.len() implies #[trigger] pass_key(tail, k)[j] == tail[j] by {
                    if tail[j].len() > 0 && tail[j][0].key == k {
                        assert(parts[j + 1] == tail[j]);
                        K::before_is_total(k, m[0].key);
                    }
                }
            }
            K::before_is_total(k, m[0].key);
            if i > 0 {
                assert(tail[i - 1] == parts[i]);
            }
            assert(i == 0 && k.before(m[0].key));
            assert(merge_all(passed) =~= rest(merge_all(parts)));
        }
    } else {
        merge_all_of_empty_parts(tail);
        assert(pass_key(tail, k) =~= tail);
        if i > 0 {
            assert(tail[i - 1] == parts[i]);
        }
        assert(merge_all(passed) =~= rest(merge_all(parts)));
    }
}

/// The keys come in order, each of them once.
pub open spec fn sorted<K: KeyModel>(s: Seq<Entry<K>>) -> bool {
    forall|i: int, j: int| 0 <= i < j < s.len() ==> (#[trigger] s[i]).key.before((#[trigger] s[j]).key)
}

/// There is an entry with this key.
pub open spec fn has_key<K: KeyModel>(s: Seq<Entry<K>>, key: K) -> bool {
    exists|i: int| 0 <= i < s.len() && (#[trigger] s[i]).key == key
}

/// A sequence holds its first item and what the rest holds.
proof fn holds_first_and_rest<K: KeyModel>(s: Seq<Entry<K>>)
    requires
        s.len() > 0,
    ensures
        forall|e: Entry<K>| #[trigger] s.contains(e) <==> e == s[0] || s.drop_first().contains(e),
        forall|k: K| #[trigger] has_key(s, k) <==> s[0].key == k || has_key(s.drop_first(), k),
{
    let t = s.drop_first();
    assert forall|e: Entry<K>| #[trigger] s.contains(e) <==> e == s[0] || t.contains(e) by {
        if s.contains(e) {
            let i = choose|i: int| 0 <= i < s.len() && s[i] == e;
            if i > 0 {
                assert(t[i - 1] == e);
            }
        }
        if t.contains(e) {
            let i = choose|i: int| 0 <= i < t.len() && t[i] == e;
            assert(s[i + 1] == e);
        }
    }
    assert forall|k: K| #[trigger] has_key(s, k) <==> s[0].key == k || has_key(t, k) by {
        if has_key(s, k) {
            let i = choose|i: int| 0 <= i < s.len() && (#[trigger] s[i]).key == k;
            if i > 0 {
                assert(t[i - 1].key == k);
            }
        }
        if has_key(t, k) {
            let i = choose|i: int| 0 <= i < t.len() && (#[trigger] t[i]).key == k;
            assert(s[i + 1].key == k);
        }
    }
}

/// What is left of a sorted sequence is sorted, and comes after its first entry.
proof fn rest_is_sorted<K: KeyModel>(s: Seq<Entry<K>>)
    requires
        sorted(s),
        s.len() > 0,
    ensures
        sorted(s.drop_first()),
        forall|e: Entry<K>| #[trigger] s.drop_first().contains(e) ==> s[0].key.before(e.key),
        !has_key(s.drop_first(), s[0].key),
{
    let t = s.drop_first();
    assert forall|e: Entry<K>| #[trigger] t.contains(e) implies s[0].key.before(e.key) by {
        let i = choose|i: int| 0 <= i < t.len() && t[i] == e;
        assert(s[i + 1] == e);
    }
    if has_key(t, s[0].key) {
        let i = choose|i: int| 0 <= i < t.len() && (#[trigger] t[i]).key == s[0].key;
        assert(s[0].key.before(s[i + 1].key));
        K::before_is_asymmetric(s[0].key, s[0].key);
    }
}

/// An entry that comes before all others may be put in front.
proof fn first_before_rest<K: KeyModel>(s: Seq<Entry<K>>)
    requires
        s.len() > 0,
        sorted(s.drop_first()),
        forall|e: Entry<K>| #[trigger] s.drop_first().contains(e) ==> s[0].key.before(e.key),
    ensures
        sorted(s),
{
    let t = s.drop_first();
    assert forall|i: int, j: int| 0 <= i < j < s.len() implies (#[trigger] s[i]).key.before((#[trigger] s[j]).key) by {
        assert(s[j] == t[j - 1]);
        if i == 0 {
            assert(t.contains(t[j - 1]));
        } else {
            assert(s[i] == t[i - 1]);
        }
    }
}

/// Nothing in a sorted sequence has a key smaller than its first one.
proof fn nothing_before_first<K: KeyModel>(s: Seq<Entry<K>>, key: K)
    requires
        sorted(s),
        s.len() > 0,
        key.before(s[0].key),
    ensures
        forall|e: Entry<K>| #[trigger] s.contains(e) ==> key.before(e.key),
        !has_key(s, key),
{
    assert forall|e: Entry<K>| #[trigger] s.contains(e) implies key.before(e.key) by {
        let i = choose|i: int| 0 <= i < s.len() && s[i] == e;
        if i > 0 {
            K::before_is_transitive(key, s[0].key, s[i].key);
        }
    }
    if has_key(s, key) {
        let i = choose|i: int| 0 <= i < s.len() && (#[trigger] s[i]).key == key;
        assert(s.contains(s[i]));
        K::before_is_asymmetric(key, key);
    }
}

/// Merging two sorted sequences gives a sorted one, which holds every key of either once: what is
/// in `a` stays, and what is in `b` stays where `a` does not have the key.
pub proof fn merge_prefers_a<K: KeyModel>(a: Seq<Entry<K>>, b: Seq<Entry<K>>)
    requires
        sorted(a),
        sorted(b),
    ensures
        sorted(merge(a, b)),
        forall|e: Entry<K>| #[trigger]
            merge(a, b).contains(e) <==> a.contains(e) || (b.contains(e) && !has_key(a, e.key)),
    decreases a.len() + b.len(),
{
    let m = merge(a, b);
    if a.len() == 0 {
        assert forall|e: Entry<K>| #[trigger] m.contains(e) <==> a.contains(e) || (b.contains(e) && !has_key(
            a,
            e.key,
        )) by {}
    } else if b.len() == 0 {
        assert forall|e: Entry<K>| #[trigger] m.contains(e) <==> a.contains(e) || (b.contains(e) && !has_key(
            a,
            e.key,
        )) by {}
    } else {
        holds_first_and_rest(a);
        holds_first_and_rest(b);
        rest_is_sorted(a);
        rest_is_sorted(b);
        K::before_is_total(a[0].key, b[0].key);
        if a[0].key.before(b[0].key) {
            K::before_is_asymmetric(a[0].key, b[0].key);
            merge_prefers_a(a.drop_first(), b);
            nothing_before_first(b, a[0].key);
            assert(m.drop_first() =~= merge(a.drop_first(), b));
        } else if b[0].key.before(a[0].key) {
            merge_prefers_a(a, b.drop_first());
            nothing_before_first(a, b[0].key);
            assert(m.drop_first() =~= merge(a, b.drop_first()));
        } else {
            merge_prefers_a(a.drop_first(), b.drop_first());
            assert(m.drop_first() =~= merge(a.drop_first(), b.drop_first()));
        }
        holds_first_and_rest(m);
        first_before_rest(m);
        assert forall|e: Entry<K>| #[trigger] m.contains(e) <==> a.contains(e) || (b.contains(e) && !has_key(
            a,
            e.key,
        )) by {
            if b.contains(e) && e.key == a[0].key && a[0].key.before(b[0].key) {
                K::before_is_asymmetric(e.key, e.key);
            }
            if b.drop_first().contains(e) && e.key == a[0].key && a[0].key == b[0].key {
                K::before_is_asymmetric(e.key, e.key);
            }
        }
    }
}

/// A key is in the merge where it is in one of the merged sequences.
pub proof fn merge_has_every_key<K: KeyModel>(a: Seq<Entry<K>>, b: Seq<Entry<K>>, key: K)
    requires
        sorted(a),
        sorted(b),
    ensures
        has_key(merge(a, b), key) <==> has_key(a, key) || has_key(b, key),
{
    let m = merge(a, b);
    merge_prefers_a(a, b);
    if has_key(a, key) {
        let i = choose|i: int| 0 <= i < a.len() && (#[trigger] a[i]).key == key;
        assert(a.contains(a[i]));
        assert(m.contains(a[i]));
    } else if has_key(b, key) {
        let i = choose|i: int| 0 <= i < b.len() && (#[trigger] b[i]).key == key;
        assert(b.contains(b[i]));
        assert(m.contains(b[i]));
    }
    if has_key(m, key) {
        let i = choose|i: int| 0 <= i < m.len() && (#[trigger] m[i]).key == key;
        assert(m.contains(m[i]));
    }
}

/// Merging sorted sequences gives a sorted one. An entry is in it where it is in one of the
/// sequences and no earlier sequence has its key.
pub proof fn merge_all_prefers_earlier<K: KeyModel>(parts: Seq<Seq<Entry<K>>>)
    requires
        forall|i: int| 0 <= i < parts.len() ==> sorted(#[trigger] parts[i]),
    ensures
        sorted(merge_all(parts)),
        forall|e: Entry<K>| #[trigger]
            merge_all(parts).contains(e) <==> exists|i: int| #[trigger] is_preferred(parts, i, e),
    decreases parts.len(),
{
    if parts.len() > 0 {
        let tail = parts.drop_first();
        assert forall|i: int| 0 <= i < tail.len() implies sorted(#[trigger] tail[i]) by {
            assert(tail[i] == parts[i + 1]);
        }
        merge_all_prefers_earlier(tail);
        merge_prefers_a(parts[0], merge_all(tail));
        assert forall|e: Entry<K>| #[trigger] merge_all(parts).contains(e) <==> exists|i: int| #[trigger]
            is_preferred(parts, i, e) by {
            if parts[0].contains(e) {
                assert(is_preferred(parts, 0, e));
            }
            if merge_all(tail).contains(e) && !has_key(parts[0], e.key) {
                let i = choose|i: int| #[trigger] is_preferred(tail, i, e);
                assert forall|j: int| 0 <= j < i + 1 implies !has_key(#[trigger] parts[j], e.key) by {
                    if j > 0 {
                        assert(parts[j] == tail[j - 1]);
                    }
                }
                assert(is_preferred(parts, i + 1, e));
            }
            if exists|i: int| #[trigger] is_preferred(parts, i, e) {
                let i = choose|i: int| #[trigger] is_preferred(parts, i, e);
                if i > 0 {
                    assert forall|j: int| 0 <= j < i - 1 implies !has_key(#[trigger] tail[j], e.key) by {
                        assert(tail[j] == parts[j + 1]);
                    }
                    assert(is_preferred(tail, i - 1, e));
                    assert(!has_key(parts[0], e.key));
                }
            }
        }
    } else {
        assert forall|e: Entry<K>| #[trigger] merge_all(parts).contains(e) <==> exists|i: int| #[trigger]
            is_preferred(parts, i, e) by {}
    }
}

/// A key is in the merge where it is in one of the merged sequences.
pub proof fn merge_all_has_every_key<K: KeyModel>(parts: Seq<Seq<Entry<K>>>, key: K)
    requires
        forall|i: int| 0 <= i < parts.len() ==> sorted(#[trigger] parts[i]),
    ensures
        has_key(merge_all(parts), key) <==> exists|i: int| 0 <= i < parts.len() && has_key(#[trigger] parts[i], key),
    decreases parts.len(),
{
    if parts.len() > 0 {
        let tail = parts.drop_first();
        assert forall|i: int| 0 <= i < tail.len() implies sorted(#[trigger] tail[i]) by {
            assert(tail[i] == parts[i + 1]);
        }
        merge_all_has_every_key(tail, key);
        merge_all_prefers_earlier(tail);
        merge_has_every_key(parts[0], merge_all(tail), key);
        if has_key(merge_all(tail), key) {
            let i = choose|i: int| 0 <= i < tail.len() && has_key(#[trigger] tail[i], key);
            assert(parts[i + 1] == tail[i]);
        }
        if exists|i: int| 0 <= i < parts.len() && has_key(#[trigger] parts[i], key) {
            let i = choose|i: int| 0 <= i < parts.len() && has_key(#[trigger] parts[i], key);
            if i > 0 {
                assert(tail[i - 1] == parts[i]);
            }
        }
    }
}

/// The entry is in part `i`, and no earlier part has its key.
pub open spec fn is_preferred<K: KeyModel>(parts: Seq<Seq<Entry<K>>>, i: int, entry: Entry<K>) -> bool {
    &&& 0 <= i < parts.len()
    &&& parts[i].contains(entry)
    &&& forall|j: int| 0 <= j < i ==> !has_key(#[trigger] parts[j], entry.key)
}

/// Merging two sequences of which the first lies before the second puts one behind the other.
pub proof fn merge_of_disjoint_is_concatenation<K: KeyModel>(a: Seq<Entry<K>>, b: Seq<Entry<K>>)
    requires
        forall|i: int, j: int|
            0 <= i < a.len() && 0 <= j < b.len() ==> (#[trigger] a[i]).key.before((#[trigger] b[j]).key),
    ensures
        merge(a, b) == a + b,
    decreases a.len(),
{
    if a.len() == 0 {
        assert(a + b =~= b);
    } else if b.len() == 0 {
        assert(a + b =~= a);
    } else {
        merge_of_disjoint_is_concatenation(a.drop_first(), b);
        assert(a[0].key.before(b[0].key));
        assert(seq![a[0]] + (a.drop_first() + b) =~= a + b);
    }
}

/// The keys of the entries.
pub open spec fn keys<K: KeyModel>(s: Seq<Entry<K>>) -> Set<K> {
    s.map_values(|e: Entry<K>| e.key).to_set()
}

/// The keys are those that some entry has.
pub proof fn keys_are_had<K: KeyModel>(s: Seq<Entry<K>>, key: K)
    ensures
        keys(s).contains(key) <==> has_key(s, key),
{
    let ks = s.map_values(|e: Entry<K>| e.key);
    if keys(s).contains(key) {
        let i = choose|i: int| 0 <= i < ks.len() && ks[i] == key;
        assert(s[i].key == key);
    }
    if has_key(s, key) {
        let i = choose|i: int| 0 <= i < s.len() && (#[trigger] s[i]).key == key;
        assert(ks[i] == key);
    }
}

/// A sorted sequence has as many keys as entries.
pub proof fn sorted_keys_differ<K: KeyModel>(s: Seq<Entry<K>>)
    requires
        sorted(s),
    ensures
        keys(s).len() == s.len(),
{
    let ks = s.map_values(|e: Entry<K>| e.key);
    assert forall|i: int, j: int| 0 <= i < j < ks.len() implies ks[i] != ks[j] by {
        assert(s[i].key.before(s[j].key));
        if ks[i] == ks[j] {
            K::before_is_asymmetric(s[i].key, s[j].key);
        }
    }
    assert(ks.no_duplicates());
    ks.unique_seq_to_set();
}

} // verus!
