//! The correspondence between the keys of pivot rows and columns and the
//! dense indices given to the pivots in the order of their discovery.

use std::collections::HashMap;
use vstd::prelude::*;
use crate::heap::{first_least, MinHeap};
use crate::trim::{shrink_map, shrink_vec};

verus! {

broadcast use vstd::std_specs::hash::group_hash_axioms;

/// Pivot `i` pairs the major key `index_2_majkey[i]` with the minor key
/// `index_2_minkey[i]`; the two maps lead back from a key to its index.
/// `ordered_minind` lists the indices by ascending minor key once
/// `order_minkeys` has run.
pub struct Indexing {
    pub minkey_2_index: HashMap<u64, usize>,
    pub majkey_2_index: HashMap<u64, usize>,
    pub index_2_majkey: Vec<u64>,
    pub index_2_minkey: Vec<u64>,
    pub ordered_minind: Vec<usize>,
}

impl Indexing {
    /// The number of pivots recorded.
    pub open spec fn count(&self) -> int {
        self.index_2_minkey@.len() as int
    }

    /// Every index has one major and one minor key, each minor key leads to
    /// its own index and back, and each major key leads to the last index
    /// that holds it.
    pub open spec fn wf(&self) -> bool {
        &&& self.index_2_majkey@.len() == self.index_2_minkey@.len()
        &&& forall|i: int|
            0 <= i < self.count() ==> self.minkey_2_index@.contains_key(
                #[trigger] self.index_2_minkey@[i],
            ) && self.minkey_2_index@[self.index_2_minkey@[i]] == i
        &&& forall|k: u64| #[trigger]
            self.minkey_2_index@.contains_key(k) ==> self.minkey_2_index@[k] < self.count()
                && self.index_2_minkey@[self.minkey_2_index@[k] as int] == k
        &&& forall|i: int|
            0 <= i < self.count() ==> self.majkey_2_index@.contains_key(
                #[trigger] self.index_2_majkey@[i],
            )
        &&& forall|k: u64| #[trigger]
            self.majkey_2_index@.contains_key(k) ==> self.majkey_2_index@[k] < self.count()
                && self.index_2_majkey@[self.majkey_2_index@[k] as int] == k
        &&& forall|i: int|
            0 <= i < self.count() ==> i <= self.majkey_2_index@[#[trigger] self.index_2_majkey@[i]]
    }

    /// Each major key leads to its own index and back.
    pub open spec fn major_exact(&self) -> bool {
        forall|i: int|
            0 <= i < self.count() ==> self.majkey_2_index@.contains_key(
                #[trigger] self.index_2_majkey@[i],
            ) && self.majkey_2_index@[self.index_2_majkey@[i]] == i
    }

    /// `ordered_minind` lists every index once, by ascending minor key.
    pub open spec fn minor_ordered(&self) -> bool {
        &&& self.ordered_minind@.len() == self.count()
        &&& forall|a: int|
            0 <= a < self.ordered_minind@.len() ==> (#[trigger] self.ordered_minind@[a])
                < self.count()
        &&& forall|a: int, b: int|
            0 <= a < b < self.ordered_minind@.len() ==> self.index_2_minkey@[(
            #[trigger] self.ordered_minind@[a]) as int] < self.index_2_minkey@[(
            #[trigger] self.ordered_minind@[b]) as int]
    }

    /// No minor key has two indices, and where no major key occurs twice
    /// among the pivots, each major key leads to its own index and back.
    pub proof fn lemma_bijection(&self)
        requires
            self.wf(),
        ensures
            self.index_2_minkey@.no_duplicates(),
            self.index_2_majkey@.no_duplicates() ==> self.major_exact(),
            self.major_exact() ==> self.index_2_majkey@.no_duplicates(),
    {
        assert forall|i: int, j: int|
            0 <= i < self.count() && 0 <= j < self.count() && i != j implies self.index_2_minkey@[i]
            != self.index_2_minkey@[j] by {
            assert(self.minkey_2_index@[self.index_2_minkey@[i]] == i);
            assert(self.minkey_2_index@[self.index_2_minkey@[j]] == j);
        }
        if self.index_2_majkey@.no_duplicates() {
            assert forall|i: int| 0 <= i < self.count() implies self.majkey_2_index@.contains_key(
                #[trigger] self.index_2_majkey@[i],
            ) && self.majkey_2_index@[self.index_2_majkey@[i]] == i by {
                let k = self.index_2_majkey@[i];
                assert(self.majkey_2_index@.contains_key(k));
                let at = self.majkey_2_index@[k] as int;
                assert(self.index_2_majkey@[at] == k);
            }
        }
        if self.major_exact() {
            assert forall|i: int, j: int|
                0 <= i < self.count() && 0 <= j < self.count() && i
                    != j implies self.index_2_majkey@[i] != self.index_2_majkey@[j] by {
                assert(self.majkey_2_index@[self.index_2_majkey@[i]] == i);
                assert(self.majkey_2_index@[self.index_2_majkey@[j]] == j);
            }
        }
    }

    /// An empty correspondence with room for `capacity` pivots.
    pub fn with_capacity(capacity: usize) -> (r: Indexing)
        ensures
            r.wf(),
            r.major_exact(),
            r.count() == 0,
            r.ordered_minind@.len() == 0,
            r.minkey_2_index@ == Map::<u64, usize>::empty(),
            r.majkey_2_index@ == Map::<u64, usize>::empty(),
    {
        Indexing {
            minkey_2_index: HashMap::with_capacity(capacity),
            majkey_2_index: HashMap::with_capacity(capacity),
            index_2_majkey: Vec::with_capacity(capacity),
            index_2_minkey: Vec::with_capacity(capacity),
            ordered_minind: Vec::with_capacity(capacity),
        }
    }

    /// The index of the pivot in the column `minkey`, if there is one.
    pub fn index_of_minkey(&self, minkey: u64) -> (r: Option<usize>)
        ensures
            r.is_some() == self.minkey_2_index@.contains_key(minkey),
            r.is_some() ==> r.unwrap() == self.minkey_2_index@[minkey],
    {
        match self.minkey_2_index.get(&minkey) {
            Some(i) => Some(*i),
            None => None,
        }
    }

    /// The index of the latest pivot in the row `majkey`, if there is one.
    pub fn index_of_majkey(&self, majkey: u64) -> (r: Option<usize>)
        ensures
            r.is_some() == self.majkey_2_index@.contains_key(majkey),
            r.is_some() ==> r.unwrap() == self.majkey_2_index@[majkey],
    {
        match self.majkey_2_index.get(&majkey) {
            Some(i) => Some(*i),
            None => None,
        }
    }

    /// Records a new pivot, the pair of `majkey` and `minkey`, under the
    /// next free index, which is returned.
    pub fn insert(&mut self, majkey: u64, minkey: u64) -> (index: usize)
        requires
            old(self).wf(),
            !old(self).minkey_2_index@.contains_key(minkey),
        ensures
            final(self).wf(),
            index == old(self).count(),
            final(self).index_2_majkey@ == old(self).index_2_majkey@.push(majkey),
            final(self).index_2_minkey@ == old(self).index_2_minkey@.push(minkey),
            final(self).minkey_2_index@ == old(self).minkey_2_index@.insert(minkey, index),
            final(self).majkey_2_index@ == old(self).majkey_2_index@.insert(majkey, index),
            final(self).ordered_minind@ == old(self).ordered_minind@,
            old(self).major_exact() && !old(self).majkey_2_index@.contains_key(majkey) ==> final(self).major_exact(),
    {
        let index: usize = self.index_2_minkey.len();
        self.minkey_2_index.insert(minkey, index);
        self.majkey_2_index.insert(majkey, index);
        self.index_2_majkey.push(majkey);
        self.index_2_minkey.push(minkey);
        proof {
            assert forall|i: int| 0 <= i < final(self).count() implies final(self).minkey_2_index@.contains_key(#[trigger] final(self).index_2_minkey@[i]) && final(self).minkey_2_index@[final(self).index_2_minkey@[i]] == i by {
                if i < index {
                    assert(old(self).minkey_2_index@.contains_key(old(self).index_2_minkey@[i]));
                }
            }
            assert forall|i: int| 0 <= i < final(self).count() implies final(self).majkey_2_index@.contains_key(#[trigger] final(self).index_2_majkey@[i]) by {
                if i < index {
                    assert(old(self).majkey_2_index@.contains_key(old(self).index_2_majkey@[i]));
                }
            }
            if old(self).major_exact() && !old(self).majkey_2_index@.contains_key(majkey) {
                assert forall|i: int| 0 <= i < final(self).count() implies final(self).majkey_2_index@.contains_key(#[trigger] final(self).index_2_majkey@[i]) && final(self).majkey_2_index@[final(self).index_2_majkey@[i]] == i by {
                    if i < index {
                        assert(old(self).majkey_2_index@.contains_key(
                            old(self).index_2_majkey@[i],
                        ));
                    }
                }
            }
        }
        index
    }

    /// Fills `ordered_minind` with the indices of the pivots, by ascending
    /// minor key.
    pub fn order_minkeys(&mut self)
        requires
            old(self).wf(),
        ensures
            final(self).wf(),
            final(self).minor_ordered(),
            final(self).index_2_majkey@ == old(self).index_2_majkey@,
            final(self).index_2_minkey@ == old(self).index_2_minkey@,
            final(self).minkey_2_index@ == old(self).minkey_2_index@,
            final(self).majkey_2_index@ == old(self).majkey_2_index@,
    {
        let n: usize = self.index_2_minkey.len();
        let mut heap = MinHeap::new();
        let mut i: usize = 0;
        while i < n
            invariant
                n == self.index_2_minkey@.len(),
                0 <= i <= n,
                heap@ == self.index_2_minkey@.take(i as int),
                *self == *old(self),
            decreases n - i,
        {
            heap.push(self.index_2_minkey[i]);
            proof {
                assert(heap@ =~= self.index_2_minkey@.take(i + 1));
            }
            i = i + 1;
        }
        self.ordered_minind.clear();
        proof {
            assert(self.index_2_minkey@.take(n as int) == self.index_2_minkey@);
            assert forall|a: int, b: int|
                0 <= a < heap@.len() && 0 <= b < heap@.len() && a != b implies heap@[a] != heap@[b] by {
                assert(self.minkey_2_index@[self.index_2_minkey@[a]] == a);
                assert(self.minkey_2_index@[self.index_2_minkey@[b]] == b);
            }
        }
        loop
            invariant
                self.wf(),
                n == self.count(),
                self.index_2_majkey@ == old(self).index_2_majkey@,
                self.index_2_minkey@ == old(self).index_2_minkey@,
                self.minkey_2_index@ == old(self).minkey_2_index@,
                self.majkey_2_index@ == old(self).majkey_2_index@,
                heap@.no_duplicates(),
                forall|x: u64| #[trigger] heap@.contains(x) ==> self.minkey_2_index@.contains_key(x),
                self.ordered_minind@.len() + heap@.len() == n,
                forall|a: int|
                    0 <= a < self.ordered_minind@.len() ==> (#[trigger] self.ordered_minind@[a]) < n,
                forall|a: int, b: int|
                    0 <= a < b < self.ordered_minind@.len() ==> self.index_2_minkey@[(
                    #[trigger] self.ordered_minind@[a]) as int] < self.index_2_minkey@[(
                    #[trigger] self.ordered_minind@[b]) as int],
                forall|a: int, x: u64|
                    0 <= a < self.ordered_minind@.len() && #[trigger] heap@.contains(x)
                        ==> self.index_2_minkey@[(#[trigger] self.ordered_minind@[a]) as int] < x,
            decreases heap@.len(),
        {
            let ghost before = heap@;
            let ghost listed = self.ordered_minind@;
            match heap.pop() {
                None => {
                    return ;
                },
                Some(k) => {
                    proof {
                        let p = first_least(before);
                        assert(before.contains(k));
                        assert forall|a: int, b: int|
                            0 <= a < heap@.len() && 0 <= b < heap@.len() && a != b implies heap@[a]
                            != heap@[b] by {
                            let a0 = if a < p { a } else { a + 1 };
                            let b0 = if b < p { b } else { b + 1 };
                            assert(heap@[a] == before[a0]);
                            assert(heap@[b] == before[b0]);
                        }
                        assert forall|x: u64| #[trigger] heap@.contains(x) implies k < x by {
                            let a = choose|a: int| 0 <= a < heap@.len() && heap@[a] == x;
                            let a0 = if a < p { a } else { a + 1 };
                            assert(heap@[a] == before[a0]);
                            assert(before.contains(x));
                            assert(k <= before[a0]);
                        }
                    }
                    let found: Option<usize> = self.index_of_minkey(k);
                    let idx: usize = found.unwrap();
                    self.ordered_minind.push(idx);
                    proof {
                        assert(self.index_2_minkey@[idx as int] == k);
                        assert forall|a: int, b: int|
                            0 <= a < b < self.ordered_minind@.len() implies self.index_2_minkey@[(
                        #[trigger] self.ordered_minind@[a]) as int] < self.index_2_minkey@[(
                        #[trigger] self.ordered_minind@[b]) as int] by {
                            if b == listed.len() {
                                assert(self.ordered_minind@[a] == listed[a]);
                            } else {
                                assert(self.ordered_minind@[a] == listed[a]);
                                assert(self.ordered_minind@[b] == listed[b]);
                            }
                        }
                        assert forall|a: int, x: u64|
                            0 <= a < self.ordered_minind@.len() && #[trigger] heap@.contains(
                                x,
                            ) implies self.index_2_minkey@[(
                        #[trigger] self.ordered_minind@[a]) as int] < x by {
                            assert(before.contains(x));
                            if a < listed.len() {
                                assert(self.ordered_minind@[a] == listed[a]);
                            }
                        }
                    }
                },
            }
        }
    }

    /// Gives back the capacity that is not in use.
    pub fn shrink_to_fit(&mut self)
        ensures
            final(self).index_2_majkey@ == old(self).index_2_majkey@,
            final(self).index_2_minkey@ == old(self).index_2_minkey@,
            final(self).minkey_2_index@ == old(self).minkey_2_index@,
            final(self).majkey_2_index@ == old(self).majkey_2_index@,
            final(self).ordered_minind@ == old(self).ordered_minind@,
    {
        shrink_map(&mut self.minkey_2_index);
        shrink_map(&mut self.majkey_2_index);
        shrink_vec(&mut self.index_2_majkey);
        shrink_vec(&mut self.index_2_minkey);
        shrink_vec(&mut self.ordered_minind);
    }
}

} // verus!
