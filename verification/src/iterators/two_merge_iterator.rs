//! Merging two iterators into one.

use vstd::prelude::*;

use super::StorageIterator;
use crate::error::StorageError;
use crate::fault::breaks;
use crate::fault::merge_fault;
use crate::fault::stepped;
use crate::fault::Fault;
use crate::key::KeyOrder;
use crate::key::StorageKey;
use crate::merge::first_is_a;
use crate::merge::first_of_merge;
use crate::merge::has_key;
use crate::merge::keys;
use crate::merge::keys_are_had;
use crate::merge::merge;
use crate::merge::merge_has_every_key;
use crate::merge::merge_prefers_a;
use crate::merge::rest;
use crate::merge::sorted;
use crate::merge::sorted_keys_differ;
use crate::merge::takes_from_b;
use crate::merge::Entry;

verus! {

/// Merges two iterators of different types into one. If the two iterators have the same key, only
/// produce the key once and prefer the entry from A.
pub struct TwoMergeIterator<A: StorageIterator, B: StorageIterator> {
    a: A,
    b: B,
    a_valid: bool,
    b_valid: bool,
    choose_a: bool,
}

impl<
    A: 'static + StorageIterator,
    B: 'static + for<'a> StorageIterator<Model = A::Model, KeyType<'a> = A::KeyType<'a>>,
> TwoMergeIterator<A, B> {
    /// The iterator whose entries are preferred.
    pub closed spec fn a(&self) -> A {
        self.a
    }

    /// The other iterator.
    pub closed spec fn b(&self) -> B {
        self.b
    }

    fn pick(a: &A, b: &B, a_valid: bool, b_valid: bool) -> (choose_a: bool)
        requires
            a.inv(),
            b.inv(),
            a_valid == (a.entries().len() > 0),
            b_valid == (b.entries().len() > 0),
        ensures
            choose_a == first_is_a(a.entries(), b.entries()),
    {
        match (a_valid, b_valid) {
            (true, true) => match a.key().compare(&b.key()) {
                KeyOrder::Greater => false,
                _ => true,
            },
            (true, false) => true,
            (false, true) => false,
            (false, false) => false,
        }
    }

    pub fn create(a: A, b: B) -> (result: Result<Self, StorageError>)
        requires
            a.inv(),
            b.inv(),
        ensures
            result matches Ok(merged) && {
                &&& merged.inv()
                &&& merged.a() == a
                &&& merged.b() == b
            },
    {
        let a_valid = a.is_valid();
        let b_valid = b.is_valid();
        let choose_a = Self::pick(&a, &b, a_valid, b_valid);
        Ok(TwoMergeIterator { a, b, a_valid, b_valid, choose_a })
    }
}

impl<
    A: 'static + StorageIterator,
    B: 'static + for<'a> StorageIterator<Model = A::Model, KeyType<'a> = A::KeyType<'a>>,
> StorageIterator for TwoMergeIterator<A, B> {
    type Model = A::Model;

    type KeyType<'a> = A::KeyType<'a>;

    closed spec fn inv(&self) -> bool {
        &&& self.a.inv()
        &&& self.b.inv()
        &&& self.a_valid == (self.a.entries().len() > 0)
        &&& self.b_valid == (self.b.entries().len() > 0)
        &&& self.choose_a == first_is_a(self.a.entries(), self.b.entries())
    }

    open spec fn entries(&self) -> Seq<Entry<Self::Model>> {
        merge(self.a().entries(), self.b().entries())
    }

    open spec fn fault(&self) -> Option<Fault> {
        merge_fault(self.a().entries(), self.a().fault(), self.b().entries(), self.b().fault())
    }

    fn key(&self) -> (key: Self::KeyType<'_>)
        ensures
            key.model() == if first_is_a(self.a().entries(), self.b().entries()) {
                self.a().entries()[0].key
            } else {
                self.b().entries()[0].key
            },
    {
        proof {
            first_of_merge(self.a.entries(), self.b.entries());
        }
        if self.choose_a {
            self.a.key()
        } else {
            self.b.key()
        }
    }

    fn value(&self) -> (value: &[u8])
        ensures
            value@ == if first_is_a(self.a().entries(), self.b().entries()) {
                self.a().entries()[0].value
            } else {
                self.b().entries()[0].value
            },
    {
        proof {
            first_of_merge(self.a.entries(), self.b.entries());
        }
        if self.choose_a {
            self.a.value()
        } else {
            self.b.value()
        }
    }

    fn is_valid(&self) -> (valid: bool)
        ensures
            valid == (self.a().entries().len() > 0 || self.b().entries().len() > 0),
    {
        self.a_valid || self.b_valid
    }

    /// The iterators that stand at the smaller key move on by one, and the others stay where they are.
    /// Where both stand at the same key, the preferred one moves on first, and where that fails the other
    /// one stays where it is.
    fn next(&mut self) -> (result: Result<(), StorageError>)
        ensures
            ({
                let a = old(self).a();
                let b = old(self).b();
                let moves_a = first_is_a(a.entries(), b.entries());
                let moves_b = takes_from_b(a.entries(), b.entries());
                let moved_a = {
                    &&& final(self).a().inv()
                    &&& final(self).a().entries() == rest(a.entries())
                    &&& final(self).a().fault() == stepped(a.fault())
                };
                let moved_b = {
                    &&& final(self).b().inv()
                    &&& final(self).b().entries() == rest(b.entries())
                    &&& final(self).b().fault() == stepped(b.fault())
                };
                if moves_a && breaks(a.fault()) {
                    &&& result matches Err(e) && e@ == a.fault()->0.error
                    &&& final(self).b() == b
                } else if moves_b && breaks(b.fault()) {
                    &&& result matches Err(e) && e@ == b.fault()->0.error
                    &&& if moves_a {
                        moved_a
                    } else {
                        final(self).a() == a
                    }
                } else {
                    &&& result is Ok
                    &&& if moves_a {
                        moved_a
                    } else {
                        final(self).a() == a
                    }
                    &&& if moves_b {
                        moved_b
                    } else {
                        final(self).b() == b
                    }
                }
            }),
    {
        let ghost a0 = self.a.entries();
        let ghost b0 = self.b.entries();
        match (self.a_valid, self.b_valid) {
            (true, true) => {
                let order = self.a.key().compare(&self.b.key());
                match order {
                    KeyOrder::Less => {
                        self.a.next()?;
                        self.a_valid = self.a.is_valid();
                    },
                    KeyOrder::Greater => {
                        self.b.next()?;
                        self.b_valid = self.b.is_valid();
                    },
                    KeyOrder::Equal => {
                        self.a.next()?;
                        self.a_valid = self.a.is_valid();
                        self.b.next()?;
                        self.b_valid = self.b.is_valid();
                    },
                }
            },
            (true, false) => {
                self.a.next()?;
                self.a_valid = self.a.is_valid();
            },
            (false, true) => {
                self.b.next()?;
                self.b_valid = self.b.is_valid();
            },
            (false, false) => {},
        }
        self.choose_a = Self::pick(&self.a, &self.b, self.a_valid, self.b_valid);
        assert(merge(self.a.entries(), self.b.entries()) =~= rest(merge(a0, b0)));
        Ok(())
    }
}

/// A merging iterator of two that are sorted is sorted: it hands out every key of either once, with the
/// entry of the preferred one where that has the key. So it takes as many steps to its end as there are
/// different keys.
pub proof fn merged_hands_out_every_key_once<
    A: 'static + StorageIterator,
    B: 'static + for<'a> StorageIterator<Model = A::Model, KeyType<'a> = A::KeyType<'a>>,
>(merged: TwoMergeIterator<A, B>)
    requires
        sorted(merged.a().entries()),
        sorted(merged.b().entries()),
    ensures
        sorted(merged.entries()),
        forall|e: Entry<A::Model>| #[trigger]
            merged.entries().contains(e) <==> merged.a().entries().contains(e) || (merged.b().entries().contains(e)
                && !has_key(merged.a().entries(), e.key)),
        keys(merged.entries()) == keys(merged.a().entries()).union(keys(merged.b().entries())),
        merged.entries().len() == keys(merged.a().entries()).union(keys(merged.b().entries())).len(),
{
    let a = merged.a().entries();
    let b = merged.b().entries();
    merge_prefers_a(a, b);
    assert forall|k: A::Model| #[trigger] keys(merged.entries()).contains(k) <==> keys(a).union(keys(b)).contains(k) by {
        merge_has_every_key(a, b, k);
        keys_are_had(merged.entries(), k);
        keys_are_had(a, k);
        keys_are_had(b, k);
    }
    assert(keys(merged.entries()) =~= keys(a).union(keys(b)));
    sorted_keys_differ(merged.entries());
}

/// A merging iterator has a current entry while either of its iterators has one. The entry, key and
/// value together, is that of the preferred iterator where it has one and the other has none before it,
/// and else that of the other.
pub proof fn merged_entry_is_from_one_side<
    A: 'static + StorageIterator,
    B: 'static + for<'a> StorageIterator<Model = A::Model, KeyType<'a> = A::KeyType<'a>>,
>(merged: TwoMergeIterator<A, B>)
    ensures
        merged.entries().len() > 0 <==> merged.a().entries().len() > 0 || merged.b().entries().len() > 0,
        merged.entries().len() > 0 ==> merged.entries()[0] == if first_is_a(
            merged.a().entries(),
            merged.b().entries(),
        ) {
            merged.a().entries()[0]
        } else {
            merged.b().entries()[0]
        },
{
    first_of_merge(merged.a().entries(), merged.b().entries());
}

} // verus!
