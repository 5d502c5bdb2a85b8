//! Merging any number of iterators of one type into one.

use vstd::prelude::*;

use super::StorageIterator;
use crate::error::StorageError;
use crate::fault::first_break;
use crate::fault::merge_all_fault;
use crate::fault::pass_faults;
use crate::fault::step_of_merge_all;
use crate::fault::Fault;
use crate::key::KeyModel;
use crate::key::KeyOrder;
use crate::key::StorageKey;
use crate::merge::first_of_merge_all;
use crate::merge::is_first_part;
use crate::merge::merge_all;
use crate::merge::merge_all_of_empty_parts;
use crate::merge::pass_key;
use crate::merge::rest_of_merge_all;
use crate::merge::Entry;

verus! {

/// Merges iterators of one type. If the same key occurs in several of them, only produce the key
/// once and prefer the entry from the iterator that comes first. Iterators that stand at the same key
/// move on one after another.
pub struct MergeIterator<I: StorageIterator> {
    iters: Vec<Box<I>>,
    current: Option<usize>,
}

/// The entries that remain in each of the iterators.
pub open spec fn parts_of<I: StorageIterator>(iters: Seq<Box<I>>) -> Seq<Seq<Entry<I::Model>>> {
    iters.map_values(|iter: Box<I>| (*iter).entries())
}

/// Where moving on in each of the iterators breaks off.
pub open spec fn faults_of<I: StorageIterator>(iters: Seq<Box<I>>) -> Seq<Option<Fault>> {
    iters.map_values(|iter: Box<I>| (*iter).fault())
}

impl<I: 'static + StorageIterator> MergeIterator<I> {
    /// The merged iterators.
    pub closed spec fn iters(&self) -> Seq<Box<I>> {
        self.iters@
    }

    /// Finds the iterator that holds the next entry.
    fn first(iters: &Vec<Box<I>>) -> (current: Option<usize>)
        requires
            forall|i: int| 0 <= i < iters.len() ==> (#[trigger] iters[i]).inv(),
        ensures
            match current {
                Some(i) => is_first_part(parts_of(iters@), i as int),
                None => forall|i: int| 0 <= i < iters.len() ==> #[trigger] parts_of(iters@)[i].len() == 0,
            },
    {
        let ghost parts = parts_of(iters@);
        let mut found: Option<usize> = None;
        for n in 0..iters.len()
            invariant
                parts == parts_of(iters@),
                forall|i: int| 0 <= i < iters.len() ==> (#[trigger] iters[i]).inv(),
                match found {
                    Some(i) => is_first_part(parts.take(n as int), i as int),
                    None => forall|i: int| 0 <= i < n ==> #[trigger] parts[i].len() == 0,
                },
        {
            assert(parts[n as int] == iters[n as int].entries());
            let ghost seen = parts.take(n as int);
            let ghost now = parts.take(n + 1);
            assert(now.take(n as int) =~= seen);
            if iters[n].is_valid() {
                let k = iters[n].key();
                assert(!k.model().before(k.model())) by {
                    if k.model().before(k.model()) {
                        I::Model::before_is_asymmetric(k.model(), k.model());
                    }
                }
                match found {
                    None => {
                        assert(is_first_part(now, n as int));
                        found = Some(n);
                    },
                    Some(i) => {
                        assert(parts[i as int] == iters[i as int].entries());
                        let c = iters[i].key();
                        let order = k.compare(&c);
                        match order {
                            KeyOrder::Less => {
                                proof {
                                    assert forall|j: int|
                                        0 <= j < n && #[trigger] now[j].len() > 0 implies k.model().before(
                                        now[j][0].key,
                                    ) by {
                                        assert(seen[j] == now[j]);
                                        I::Model::before_is_total(c.model(), now[j][0].key);
                                        if c.model().before(now[j][0].key) {
                                            I::Model::before_is_transitive(k.model(), c.model(), now[j][0].key);
                                        }
                                    }
                                    assert forall|j: int|
                                        0 <= j < now.len() && #[trigger] now[j].len() > 0 implies !now[j][0].key.before(
                                        now[n as int][0].key,
                                    ) by {
                                        if j < n {
                                            I::Model::before_is_asymmetric(k.model(), now[j][0].key);
                                        }
                                    }
                                    assert(is_first_part(now, n as int));
                                }
                                found = Some(n);
                            },
                            _ => {
                                proof {
                                    Self::stays_first(seen, now, i as int);
                                }
                            },
                        }
                    },
                }
            } else {
                proof {
                    if let Some(i) = found {
                        Self::stays_first(seen, now, i as int);
                    }
                }
            }
        }
        assert(parts.take(iters.len() as int) =~= parts);
        found
    }

    /// A first part stays first where one more part is looked at that does not start with a smaller key.
    proof fn stays_first(seen: Seq<Seq<Entry<I::Model>>>, now: Seq<Seq<Entry<I::Model>>>, i: int)
        requires
            is_first_part(seen, i),
            now.len() == seen.len() + 1,
            now.take(seen.len() as int) == seen,
            now.last().len() > 0 ==> !now.last()[0].key.before(seen[i][0].key),
        ensures
            is_first_part(now, i),
    {
        assert forall|j: int| 0 <= j < seen.len() implies #[trigger] now[j] == seen[j] by {
            assert(now.take(seen.len() as int)[j] == now[j]);
        }
    }

    /// Which of the iterators stand at the key of iterator `c`.
    fn due(&self, c: usize) -> (due: Vec<bool>)
        requires
            forall|i: int| 0 <= i < self.iters.len() ==> (#[trigger] self.iters[i]).inv(),
            c < self.iters.len(),
            self.iters[c as int].entries().len() > 0,
        ensures
            due.len() == self.iters.len(),
            forall|i: int|
                0 <= i < due.len() ==> #[trigger] due[i] == (self.iters[i].entries().len() > 0
                    && self.iters[i].entries()[0].key == self.iters[c as int].entries()[0].key),
    {
        let mut due: Vec<bool> = Vec::with_capacity(self.iters.len());
        for n in 0..self.iters.len()
            invariant
                due.len() == n,
                c < self.iters.len(),
                self.iters[c as int].entries().len() > 0,
                forall|i: int| 0 <= i < self.iters.len() ==> (#[trigger] self.iters[i]).inv(),
                forall|i: int|
                    0 <= i < n ==> #[trigger] due[i] == (self.iters[i].entries().len() > 0
                        && self.iters[i].entries()[0].key == self.iters[c as int].entries()[0].key),
        {
            assert(self.iters[n as int].inv());
            assert(self.iters[c as int].inv());
            let equal = self.iters[n].is_valid() && self.iters[n].key().compare(&self.iters[c].key())
                == KeyOrder::Equal;
            due.push(equal);
        }
        due
    }

    pub fn create(iters: Vec<Box<I>>) -> (merged: Self)
        requires
            forall|i: int| 0 <= i < iters.len() ==> (#[trigger] iters[i]).inv(),
        ensures
            merged.inv(),
            merged.iters() == iters@,
    {
        let current = Self::first(&iters);
        MergeIterator { iters, current }
    }
}

impl<I: 'static + StorageIterator> StorageIterator for MergeIterator<I> {
    type Model = I::Model;

    type KeyType<'a> = I::KeyType<'a>;

    closed spec fn inv(&self) -> bool {
        &&& forall|i: int| 0 <= i < self.iters.len() ==> (#[trigger] self.iters[i]).inv()
        &&& match self.current {
            Some(i) => is_first_part(parts_of(self.iters@), i as int),
            None => forall|i: int| 0 <= i < self.iters.len() ==> #[trigger] parts_of(self.iters@)[i].len() == 0,
        }
    }

    open spec fn entries(&self) -> Seq<Entry<Self::Model>> {
        merge_all(parts_of(self.iters()))
    }

    open spec fn fault(&self) -> Option<Fault> {
        merge_all_fault(parts_of(self.iters()), faults_of(self.iters()))
    }

    fn key(&self) -> (key: Self::KeyType<'_>) {
        match self.current {
            Some(i) => {
                proof {
                    first_of_merge_all(parts_of(self.iters@), i as int);
                }
                self.iters[i].key()
            },
            None => {
                proof {
                    merge_all_of_empty_parts(parts_of(self.iters@));
                }
                self.iters[0].key()
            },
        }
    }

    fn value(&self) -> (value: &[u8]) {
        match self.current {
            Some(i) => {
                proof {
                    first_of_merge_all(parts_of(self.iters@), i as int);
                }
                self.iters[i].value()
            },
            None => {
                proof {
                    merge_all_of_empty_parts(parts_of(self.iters@));
                }
                self.iters[0].value()
            },
        }
    }

    fn is_valid(&self) -> (valid: bool) {
        proof {
            match self.current {
                Some(i) => first_of_merge_all(parts_of(self.iters@), i as int),
                None => merge_all_of_empty_parts(parts_of(self.iters@)),
            }
        }
        self.current.is_some()
    }

    fn next(&mut self) -> (result: Result<(), StorageError>) {
        let c: usize = match self.current {
            Some(c) => c,
            None => {
                proof {
                    merge_all_of_empty_parts(parts_of(self.iters@));
                }
                return Ok(());
            },
        };
        let ghost iters0 = self.iters@;
        let ghost parts0 = parts_of(iters0);
        let ghost faults0 = faults_of(iters0);
        let ghost k = parts0[c as int][0].key;
        proof {
            first_of_merge_all(parts0, c as int);
            rest_of_merge_all(parts0, c as int);
            step_of_merge_all(parts0, faults0, c as int);
        }
        let due = self.due(c);
        let count: usize = self.iters.len();
        assert(parts0.skip(0) =~= parts0);
        assert(faults0.skip(0) =~= faults0);
        #[verifier::loop_isolation(false)]
        for n in 0..count
            invariant
                count == self.iters.len(),
                self.iters.len() == iters0.len(),
                forall|i: int| 0 <= i < self.iters.len() ==> (#[trigger] self.iters[i]).inv(),
                forall|i: int| n <= i < self.iters.len() ==> #[trigger] self.iters[i] == iters0[i],
                forall|i: int| 0 <= i < n ==> (#[trigger] self.iters[i]).entries() == pass_key(parts0, k)[i],
                forall|i: int| 0 <= i < n ==> (#[trigger] self.iters[i]).fault() == pass_faults(parts0, faults0, k)[i],
                first_break(parts0, faults0, k) == first_break(parts0.skip(n as int), faults0.skip(n as int), k),
        {
            assert(parts0[n as int] == iters0[n as int].entries());
            assert(faults0[n as int] == iters0[n as int].fault());
            assert(parts0.skip(n as int).drop_first() =~= parts0.skip(n + 1));
            assert(faults0.skip(n as int).drop_first() =~= faults0.skip(n + 1));
            assert(self.iters[n as int] == iters0[n as int]);
            if due[n] {
                self.iters[n].next()?;
            }
        }
        assert(first_break(parts0, faults0, k) is None);
        assert(parts_of(self.iters@) =~= pass_key(parts0, k));
        assert(faults_of(self.iters@) =~= pass_faults(parts0, faults0, k));
        self.current = Self::first(&self.iters);
        Ok(())
    }
}

} // verus!
