//! The order of keys, in terms of their bytes.

use vstd::prelude::*;

use crate::key::bytes_before;
use crate::key::compare_bytes;
use crate::key::KeyModel;
use crate::key::KeyOrder;
use crate::key::KeySlice;
use crate::key::KeyVec;
use crate::key::KeyView;
use crate::key::StorageKey;

verus! {

/// The two agree in their first `i` bytes, and then `a` has ended and `b` has not, or `a` has the
/// smaller byte.
pub open spec fn parts_at(a: Seq<u8>, b: Seq<u8>, i: int) -> bool {
    &&& 0 <= i <= a.len()
    &&& i < b.len()
    &&& forall|j: int| 0 <= j < i ==> #[trigger] a[j] == b[j]
    &&& i == a.len() || (a[i] as int) < (b[i] as int)
}

/// `a` comes before `b` in a dictionary whose letters are the bytes.
pub open spec fn lexicographic(a: Seq<u8>, b: Seq<u8>) -> bool {
    exists|i: int| #[trigger] parts_at(a, b, i)
}

/// `a` comes before `b`: by user key, and newer versions of one user key first.
pub open spec fn sorts_before(a: KeyView, b: KeyView) -> bool {
    lexicographic(a.key, b.key) || (a.key == b.key && a.ts > b.ts)
}

/// Bytes are ordered as numbers, and byte strings in lexicographic order.
pub proof fn bytes_are_ordered_lexicographically(a: Seq<u8>, b: Seq<u8>)
    ensures
        bytes_before(a, b) <==> lexicographic(a, b),
    decreases a.len(),
{
    if a.len() > 0 && b.len() > 0 {
        let ra = a.drop_first();
        let rb = b.drop_first();
        bytes_are_ordered_lexicographically(ra, rb);
        if bytes_before(a, b) {
            if a[0] == b[0] {
                let i = choose|i: int| #[trigger] parts_at(ra, rb, i);
                assert forall|j: int| 0 <= j < i + 1 implies #[trigger] a[j] == b[j] by {
                    if j > 0 {
                        assert(ra[j - 1] == rb[j - 1]);
                    }
                }
                assert(parts_at(a, b, i + 1));
            } else {
                assert(parts_at(a, b, 0));
            }
        }
        if lexicographic(a, b) {
            let i = choose|i: int| #[trigger] parts_at(a, b, i);
            if i > 0 {
                assert(a[0] == b[0]);
                assert forall|j: int| 0 <= j < i - 1 implies #[trigger] ra[j] == rb[j] by {
                    assert(a[j + 1] == b[j + 1]);
                }
                assert(parts_at(ra, rb, i - 1));
            }
        }
    } else {
        if a.len() == 0 && b.len() > 0 {
            assert(parts_at(a, b, 0));
        }
    }
}

/// Keys are ordered by user key, and versions of one user key newest first.
pub proof fn keys_are_ordered_newest_first(a: KeyView, b: KeyView)
    ensures
        a.before(b) <==> sorts_before(a, b),
{
    bytes_are_ordered_lexicographically(a.key, b.key);
}

/// Comparing byte strings tells their lexicographic order.
pub proof fn comparing_bytes_is_lexicographic(a: &[u8], b: &[u8], order: KeyOrder)
    requires
        call_ensures(compare_bytes, (a, b), order),
    ensures
        order is Less <==> lexicographic(a@, b@),
        order is Equal <==> a@ == b@,
        order is Greater <==> lexicographic(b@, a@),
{
    bytes_are_ordered_lexicographically(a@, b@);
    bytes_are_ordered_lexicographically(b@, a@);
}

/// Comparing keys compares user keys, and the timestamps of equal ones the other way round.
pub proof fn comparing_keys_puts_newer_first(
    a: &[u8],
    a_ts: u64,
    b: &[u8],
    b_ts: u64,
    a_key: KeySlice<'_>,
    b_key: KeySlice<'_>,
    order: KeyOrder,
)
    requires
        call_ensures(KeySlice::from_slice, (a, a_ts), a_key),
        call_ensures(KeySlice::from_slice, (b, b_ts), b_key),
        call_ensures(<KeySlice<'_> as StorageKey>::compare, (&a_key, &b_key), order),
    ensures
        order is Less <==> lexicographic(a@, b@) || (a@ == b@ && a_ts > b_ts),
        order is Equal <==> a@ == b@ && a_ts == b_ts,
        order is Greater <==> lexicographic(b@, a@) || (a@ == b@ && a_ts < b_ts),
{
    bytes_are_ordered_lexicographically(a@, b@);
    bytes_are_ordered_lexicographically(b@, a@);
}

/// A borrowed key gives back the bytes and the timestamp that it was made of.
pub proof fn borrowed_keys_give_back(
    bytes: &[u8],
    ts: u64,
    key: KeySlice<'_>,
    key_ref: &[u8],
    inner: &[u8],
    key_ts: u64,
    empty: bool,
)
    requires
        call_ensures(KeySlice::from_slice, (bytes, ts), key),
        call_ensures(KeySlice::key_ref, (&key,), key_ref),
        call_ensures(KeySlice::into_inner, (key,), inner),
        call_ensures(KeySlice::ts, (&key,), key_ts),
        call_ensures(KeySlice::is_empty, (&key,), empty),
    ensures
        key_ref@ == bytes@,
        inner@ == bytes@,
        key_ts == ts,
        empty == (bytes@.len() == 0),
        key@.key == bytes@,
        key@.ts == ts,
        key.model() == key@,
{
}

/// An owned key gives back the bytes and the timestamp that it was made of, and lends a key that does.
pub proof fn owned_keys_give_back(
    bytes: Vec<u8>,
    ts: u64,
    key: KeyVec,
    key_ref: &[u8],
    key_ts: u64,
    empty: bool,
    lent: KeySlice<'_>,
    lent_ref: &[u8],
    lent_ts: u64,
)
    requires
        call_ensures(KeyVec::from_vec_with_ts, (bytes, ts), key),
        call_ensures(KeyVec::key_ref, (&key,), key_ref),
        call_ensures(KeyVec::ts, (&key,), key_ts),
        call_ensures(KeyVec::is_empty, (&key,), empty),
        call_ensures(KeyVec::as_key_slice, (&key,), lent),
        call_ensures(KeySlice::key_ref, (&lent,), lent_ref),
        call_ensures(KeySlice::ts, (&lent,), lent_ts),
    ensures
        key_ref@ == bytes@,
        key_ts == ts,
        empty == (bytes@.len() == 0),
        lent_ref@ == bytes@,
        lent_ts == ts,
{
}

/// The first byte in which two strings differ decides, whatever follows.
pub proof fn first_different_byte_decides(front: Seq<u8>, x: u8, a: Seq<u8>, y: u8, b: Seq<u8>)
    requires
        x < y,
    ensures
        bytes_before(front + seq![x] + a, front + seq![y] + b),
        !bytes_before(front + seq![y] + b, front + seq![x] + a),
{
    let p = front + seq![x] + a;
    let q = front + seq![y] + b;
    assert(parts_at(p, q, front.len() as int));
    bytes_are_ordered_lexicographically(p, q);
    crate::key::bytes_before_is_asymmetric(p, q);
}

/// A string comes before every longer one that it is the front of, and never before itself.
pub proof fn fronts_come_first(front: Seq<u8>, more: Seq<u8>)
    requires
        more.len() > 0,
    ensures
        bytes_before(front, front + more),
        !bytes_before(front + more, front),
        !bytes_before(front, front),
{
    let q = front + more;
    assert(parts_at(front, q, front.len() as int));
    bytes_are_ordered_lexicographically(front, q);
    crate::key::bytes_before_is_asymmetric(front, q);
    if bytes_before(front, front) {
        crate::key::bytes_before_is_asymmetric(front, front);
    }
}

/// User keys decide before timestamps, and among equal user keys the larger timestamp comes first.
pub proof fn user_keys_decide_before_timestamps(a: KeyView, b: KeyView)
    ensures
        bytes_before(a.key, b.key) ==> a.before(b) && !b.before(a),
        a.key == b.key && a.ts > b.ts ==> a.before(b) && !b.before(a),
        a.key == b.key && a.ts == b.ts ==> !a.before(b),
{
    if bytes_before(a.key, b.key) {
        crate::key::bytes_before_is_asymmetric(a.key, b.key);
    }
    if bytes_before(a.key, a.key) {
        crate::key::bytes_before_is_asymmetric(a.key, a.key);
    }
}

} // verus!
