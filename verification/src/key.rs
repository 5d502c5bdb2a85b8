//! Keys: a user key, which is a string of bytes, together with the timestamp of the version.
//!
//! User keys are ordered byte by byte. Versions of one user key are ordered newest first.

use vstd::prelude::*;

verus! {

/// How one key stands to another.
#[derive(Clone, Copy, Debug, PartialEq, Eq, Structural)]
pub enum KeyOrder {
    Less,
    Equal,
    Greater,
}

/// A mathematical key with a strict total order.
pub trait KeyModel: Sized {
    /// `self` sorts strictly before `other`.
    spec fn before(self, other: Self) -> bool;

    /// No two keys sort before each other.
    proof fn before_is_asymmetric(a: Self, b: Self)
        requires
            a.before(b),
        ensures
            !b.before(a),
    ;

    /// The order is transitive.
    proof fn before_is_transitive(a: Self, b: Self, c: Self)
        requires
            a.before(b),
            b.before(c),
        ensures
            a.before(c),
    ;

    /// Two different keys are always ordered.
    proof fn before_is_total(a: Self, b: Self)
        ensures
            a == b || a.before(b) || b.before(a),
    ;
}

/// A key that an iterator hands out.
pub trait StorageKey: Sized {
    /// What the key is, free of borrows.
    type Model: KeyModel;

    spec fn model(&self) -> Self::Model;

    /// Compares two keys.
    fn compare(&self, other: &Self) -> (order: KeyOrder)
        ensures
            order is Less <==> self.model().before(other.model()),
            order is Equal <==> self.model() == other.model(),
            order is Greater <==> other.model().before(self.model()),
    ;
}

/// Bytewise lexicographic order: the first differing byte decides, and a proper prefix sorts first.
pub open spec fn bytes_before(a: Seq<u8>, b: Seq<u8>) -> bool
    decreases a.len(),
{
    if b.len() == 0 {
        false
    } else if a.len() == 0 {
        true
    } else {
        a[0] < b[0] || (a[0] == b[0] && bytes_before(a.drop_first(), b.drop_first()))
    }
}

pub proof fn bytes_before_is_asymmetric(a: Seq<u8>, b: Seq<u8>)
    requires
        bytes_before(a, b),
    ensures
        !bytes_before(b, a),
    decreases a.len(),
{
    if a.len() > 0 && a[0] == b[0] {
        bytes_before_is_asymmetric(a.drop_first(), b.drop_first());
    }
}

pub proof fn bytes_before_is_transitive(a: Seq<u8>, b: Seq<u8>, c: Seq<u8>)
    requires
        bytes_before(a, b),
        bytes_before(b, c),
    ensures
        bytes_before(a, c),
    decreases a.len(),
{
    if a.len() > 0 && a[0] == b[0] && b[0] == c[0] {
        bytes_before_is_transitive(a.drop_first(), b.drop_first(), c.drop_first());
    }
}

pub proof fn bytes_before_is_total(a: Seq<u8>, b: Seq<u8>)
    ensures
        a == b || bytes_before(a, b) || bytes_before(b, a),
    decreases a.len(),
{
    if a.len() > 0 && b.len() > 0 && a[0] == b[0] {
        bytes_before_is_total(a.drop_first(), b.drop_first());
        if a.drop_first() == b.drop_first() {
            assert(a =~= seq![a[0]] + a.drop_first());
            assert(b =~= seq![b[0]] + b.drop_first());
        }
    } else if a.len() == 0 && b.len() == 0 {
        assert(a =~= b);
    }
}

/// A key as a value: the user key and the timestamp of the version.
#[verifier::ext_equal]
pub struct KeyView {
    pub key: Seq<u8>,
    pub ts: u64,
}

impl KeyModel for KeyView {
    /// By user key; versions of one user key newest first.
    open spec fn before(self, other: Self) -> bool {
        bytes_before(self.key, other.key) || (self.key == other.key && self.ts > other.ts)
    }

    proof fn before_is_asymmetric(a: Self, b: Self) {
        if bytes_before(a.key, b.key) {
            bytes_before_is_asymmetric(a.key, b.key);
        }
        if bytes_before(b.key, a.key) {
            bytes_before_is_asymmetric(b.key, a.key);
        }
    }

    proof fn before_is_transitive(a: Self, b: Self, c: Self) {
        if bytes_before(a.key, b.key) && bytes_before(b.key, c.key) {
            bytes_before_is_transitive(a.key, b.key, c.key);
        }
    }

    proof fn before_is_total(a: Self, b: Self) {
        bytes_before_is_total(a.key, b.key);
    }
}

/// Compares two byte strings in lexicographic order.
pub fn compare_bytes(a: &[u8], b: &[u8]) -> (order: KeyOrder)
    ensures
        order is Less <==> bytes_before(a@, b@),
        order is Equal <==> a@ == b@,
        order is Greater <==> bytes_before(b@, a@),
{
    let mut i: usize = 0;
    assert(a@.skip(0) =~= a@ && b@.skip(0) =~= b@);
    while i < a.len() && i < b.len() && a[i] == b[i]
        invariant
            i <= a.len(),
            i <= b.len(),
            a@.take(i as int) =~= b@.take(i as int),
            bytes_before(a@, b@) == bytes_before(a@.skip(i as int), b@.skip(i as int)),
            bytes_before(b@, a@) == bytes_before(b@.skip(i as int), a@.skip(i as int)),
        decreases a.len() - i,
    {
        proof {
            assert(a@.skip(i as int).drop_first() =~= a@.skip(i + 1));
            assert(b@.skip(i as int).drop_first() =~= b@.skip(i + 1));
            assert(a@.take(i + 1) =~= a@.take(i as int).push(a@[i as int]));
            assert(b@.take(i + 1) =~= b@.take(i as int).push(b@[i as int]));
        }
        i = i + 1;
    }
    proof {
        bytes_before_is_total(a@, b@);
        if bytes_before(a@, b@) {
            bytes_before_is_asymmetric(a@, b@);
        }
        if bytes_before(b@, a@) {
            bytes_before_is_asymmetric(b@, a@);
        }
        if a@ == b@ && bytes_before(a@, b@) {
            bytes_before_is_asymmetric(a@, b@);
        }
    }
    if i < b.len() {
        if i < a.len() {
            if a[i] < b[i] {
                KeyOrder::Less
            } else {
                KeyOrder::Greater
            }
        } else {
            KeyOrder::Less
        }
    } else if i < a.len() {
        KeyOrder::Greater
    } else {
        assert(a@ =~= b@) by {
            assert(a@.take(i as int) =~= a@);
            assert(b@.take(i as int) =~= b@);
        }
        KeyOrder::Equal
    }
}

/// A borrowed key.
#[derive(Clone, Copy, Debug)]
pub struct KeySlice<'a> {
    key: &'a [u8],
    ts: u64,
}

impl<'a> View for KeySlice<'a> {
    type V = KeyView;

    closed spec fn view(&self) -> KeyView {
        KeyView { key: self.key@, ts: self.ts }
    }
}

impl<'a> KeySlice<'a> {
    pub fn from_slice(key: &'a [u8], ts: u64) -> (r: KeySlice<'a>)
        ensures
            r@ == (KeyView { key: key@, ts }),
    {
        KeySlice { key, ts }
    }

    /// The user key.
    pub fn key_ref(&self) -> (r: &'a [u8])
        ensures
            r@ == self@.key,
    {
        self.key
    }

    /// The user key, given up by the key that held it.
    pub fn into_inner(self) -> (r: &'a [u8])
        ensures
            r@ == self@.key,
    {
        self.key
    }

    /// The timestamp of the version.
    pub fn ts(&self) -> (r: u64)
        ensures
            r == self@.ts,
    {
        self.ts
    }

    /// Whether the user key has no bytes.
    pub fn is_empty(&self) -> (r: bool)
        ensures
            r == (self@.key.len() == 0),
    {
        self.key.len() == 0
    }
}

impl<'a> StorageKey for KeySlice<'a> {
    type Model = KeyView;

    open spec fn model(&self) -> KeyView {
        self@
    }

    fn compare(&self, other: &Self) -> (order: KeyOrder) {
        proof {
            KeyView::before_is_total(self@, other@);
            if self@.before(other@) {
                KeyView::before_is_asymmetric(self@, other@);
            }
            if other@.before(self@) {
                KeyView::before_is_asymmetric(other@, self@);
            }
        }
        let order = compare_bytes(self.key, other.key);
        match order {
            KeyOrder::Equal => {
                if self.ts > other.ts {
                    KeyOrder::Less
                } else if self.ts < other.ts {
                    KeyOrder::Greater
                } else {
                    KeyOrder::Equal
                }
            },
            _ => order,
        }
    }
}

/// An owned key.
#[derive(Debug)]
pub struct KeyVec {
    key: Vec<u8>,
    ts: u64,
}

impl View for KeyVec {
    type V = KeyView;

    closed spec fn view(&self) -> KeyView {
        KeyView { key: self.key@, ts: self.ts }
    }
}

/// The key with no bytes, at timestamp zero.
pub open spec fn empty_key() -> KeyView {
    KeyView { key: Seq::empty(), ts: 0 }
}

impl KeyVec {
    /// The empty key.
    pub fn new() -> (r: KeyVec)
        ensures
            r@ == empty_key(),
    {
        KeyVec { key: Vec::new(), ts: 0 }
    }

    pub fn from_vec_with_ts(key: Vec<u8>, ts: u64) -> (r: KeyVec)
        ensures
            r@ == (KeyView { key: key@, ts }),
    {
        KeyVec { key, ts }
    }

    /// The user key.
    pub fn key_ref(&self) -> (r: &[u8])
        ensures
            r@ == self@.key,
    {
        self.key.as_slice()
    }

    /// The timestamp of the version.
    pub fn ts(&self) -> (r: u64)
        ensures
            r == self@.ts,
    {
        self.ts
    }

    /// Whether the user key has no bytes.
    pub fn is_empty(&self) -> (r: bool)
        ensures
            r == (self@.key.len() == 0),
    {
        self.key.len() == 0
    }

    /// The same key, borrowed.
    pub fn as_key_slice(&self) -> (r: KeySlice<'_>)
        ensures
            r@ == self@,
    {
        KeySlice { key: self.key.as_slice(), ts: self.ts }
    }
}

} // verus!
