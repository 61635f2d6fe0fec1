//! A small association map keyed by entity id, with a mathematical `Map`
//! model. It backs the relation store and both derived indexes.

use vstd::prelude::*;

verus! {

/// An id-keyed map stored as a vector of pairs with pairwise distinct keys.
/// `entries` is open to the rest of the library so scans over all pairs
/// (used to materialize a parent's child list and by the reorder resolver)
/// can be verified against the model.
#[verifier::reject_recursive_types(V)]
pub struct IdMap<V> {
    pub entries: Vec<(u64, V)>,
    pub model: Ghost<Map<u64, V>>,
}

impl<V> IdMap<V> {
    /// The mathematical content of the map.
    pub open spec fn view(self) -> Map<u64, V> {
        self.model@
    }

    /// The stored pairs list the model exactly, each key once.
    pub open spec fn wf(self) -> bool {
        &&& forall|i: int, j: int|
            0 <= i < j < self.entries@.len() ==> (#[trigger] self.entries@[i]).0 != (
            #[trigger] self.entries@[j]).0
        &&& forall|i: int|
            0 <= i < self.entries@.len() ==> self@.contains_key((#[trigger] self.entries@[i]).0)
                && self@[self.entries@[i].0] == self.entries@[i].1
        &&& forall|k: u64|
            self@.contains_key(k) ==> exists|i: int|
                0 <= i < self.entries@.len() && (#[trigger] self.entries@[i]).0 == k
    }

    pub fn new() -> (r: Self)
        ensures
            r.wf(),
            r@ == Map::<u64, V>::empty(),
            r.entries@.len() == 0,
    {
        IdMap { entries: Vec::new(), model: Ghost(Map::empty()) }
    }

    /// The index of the entry holding `k`, if any.
    fn find(&self, k: u64) -> (r: Option<usize>)
        requires
            self.wf(),
        ensures
            match r {
                Some(i) => i < self.entries@.len() && self.entries@[i as int].0 == k
                    && self@.contains_key(k),
                None => !self@.contains_key(k),
            },
    {
        let mut i: usize = 0;
        while i < self.entries.len()
            invariant
                self.wf(),
                i <= self.entries@.len(),
                forall|j: int| 0 <= j < i ==> (#[trigger] self.entries@[j]).0 != k,
            decreases self.entries@.len() - i,
        {
            if self.entries[i].0 == k {
                return Some(i);
            }
            i += 1;
        }
        None
    }

    pub fn contains(&self, k: u64) -> (r: bool)
        requires
            self.wf(),
        ensures
            r == self@.contains_key(k),
    {
        self.find(k).is_some()
    }

    pub fn get(&self, k: u64) -> (r: Option<&V>)
        requires
            self.wf(),
        ensures
            match r {
                Some(v) => self@.contains_key(k) && *v == self@[k],
                None => !self@.contains_key(k),
            },
    {
        match self.find(k) {
            Some(i) => Some(&self.entries[i].1),
            None => None,
        }
    }

    /// Insert or overwrite the value for `k`.
    pub fn insert(&mut self, k: u64, v: V)
        requires
            old(self).wf(),
        ensures
            final(self).wf(),
            final(self)@ == old(self)@.insert(k, v),
    {
        let ghost m0 = self@;
        match self.find(k) {
            Some(i) => {
                let _stale = self.entries.remove(i);
                self.entries.push((k, v));
                self.model = Ghost(m0.insert(k, v));
                proof {
                    let e = self.entries@;
                    assert forall|a: int, b: int| 0 <= a < b < e.len() implies (
                        #[trigger] e[a]).0 != (#[trigger] e[b]).0 by {
                        if b == e.len() - 1 {
                            if a < i {
                                assert(e[a] == old(self).entries@[a]);
                            } else {
                                assert(e[a] == old(self).entries@[a + 1]);
                            }
                        }
                    }
                    assert forall|q: u64| self@.contains_key(q) implies exists|j: int|
                        0 <= j < e.len() && (#[trigger] e[j]).0 == q by {
                        if q == k {
                            assert(e[e.len() - 1].0 == q);
                        } else {
                            let j0 = choose|j0: int|
                                0 <= j0 < old(self).entries@.len() && (
                                #[trigger] old(self).entries@[j0]).0 == q;
                            if j0 < i {
                                assert(e[j0].0 == q);
                            } else {
                                assert(e[j0 - 1].0 == q);
                            }
                        }
                    }
                }
            },
            None => {
                self.entries.push((k, v));
                self.model = Ghost(m0.insert(k, v));
                proof {
                    let e = self.entries@;
                    assert forall|q: u64| self@.contains_key(q) implies exists|j: int|
                        0 <= j < e.len() && (#[trigger] e[j]).0 == q by {
                        if q == k {
                            assert(e[e.len() - 1].0 == q);
                        } else {
                            let j0 = choose|j0: int|
                                0 <= j0 < old(self).entries@.len() && (
                                #[trigger] old(self).entries@[j0]).0 == q;
                            assert(e[j0].0 == q);
                        }
                    }
                }
            },
        }
    }

    /// Remove the value for `k`, handing it back if it was present.
    pub fn remove(&mut self, k: u64) -> (r: Option<V>)
        requires
            old(self).wf(),
        ensures
            final(self).wf(),
            final(self)@ == old(self)@.remove(k),
            match r {
                Some(v) => old(self)@.contains_key(k) && v == old(self)@[k],
                None => !old(self)@.contains_key(k),
            },
    {
        let ghost m0 = self@;
        match self.find(k) {
            Some(i) => {
                let v = self.entries.remove(i);
                self.model = Ghost(m0.remove(k));
                proof {
                    let e = self.entries@;
                    assert forall|a: int, b: int| 0 <= a < b < e.len() implies (
                        #[trigger] e[a]).0 != (#[trigger] e[b]).0 by {
                        let a0: int = if a < i { a } else { a + 1 };
                        let b0: int = if b < i { b } else { b + 1 };
                        assert(e[a] == old(self).entries@[a0]);
                        assert(e[b] == old(self).entries@[b0]);
                    }
                    assert forall|j: int| 0 <= j < e.len() implies self@.contains_key((
                        #[trigger] e[j]).0) && self@[e[j].0] == e[j].1 by {
                        let j0: int = if j < i { j } else { j + 1 };
                        assert(e[j] == old(self).entries@[j0]);
                        assert(old(self).entries@[j0].0 != k);
                    }
                    assert forall|q: u64| self@.contains_key(q) implies exists|j: int|
                        0 <= j < e.len() && (#[trigger] e[j]).0 == q by {
                        let j0 = choose|j0: int|
                            0 <= j0 < old(self).entries@.len() && (
                            #[trigger] old(self).entries@[j0]).0 == q;
                        if j0 < i {
                            assert(e[j0].0 == q);
                        } else {
                            assert(e[j0 - 1].0 == q);
                        }
                    }
                }
                Some(v.1)
            },
            None => {
                proof {
                    assert(self@ =~= m0.remove(k));
                }
                None
            },
        }
    }
}

} // verus!
