//! A priority queue of keys that hands out its smallest key first and keeps
//! duplicates.

use vstd::prelude::*;

verus! {

/// `i` is the place of the first occurrence of the smallest key of `keys`.
pub open spec fn is_first_least(keys: Seq<u64>, i: int) -> bool {
    &&& 0 <= i < keys.len()
    &&& forall|j: int| 0 <= j < keys.len() ==> keys[i] <= #[trigger] keys[j]
    &&& forall|j: int| 0 <= j < i ==> keys[i] < #[trigger] keys[j]
}

/// The place of the first occurrence of the smallest key of `keys`, which
/// is not empty.
pub open spec fn first_least(keys: Seq<u64>) -> int {
    choose|i: int| is_first_least(keys, i)
}

/// Only one place is that of the first occurrence of the smallest key.
pub proof fn lemma_first_least_unique(keys: Seq<u64>, i: int)
    requires
        is_first_least(keys, i),
    ensures
        first_least(keys) == i,
{
    let chosen = first_least(keys);
    assert(is_first_least(keys, chosen));
    assert(keys[i] <= keys[chosen]);
    assert(keys[chosen] <= keys[i]);
}

/// A queue of keys ordered by `<`; the same key may be held several times.
///
/// The view is the sequence of the keys held, in the order of their arrival.
pub struct MinHeap {
    items: Vec<u64>,
}

impl View for MinHeap {
    type V = Seq<u64>;

    closed spec fn view(&self) -> Seq<u64> {
        self.items@
    }
}

impl MinHeap {
    /// An empty queue.
    pub fn new() -> (r: MinHeap)
        ensures
            r@ == Seq::<u64>::empty(),
    {
        MinHeap { items: Vec::new() }
    }

    /// The number of keys held, duplicates counted.
    pub fn len(&self) -> (r: usize)
        ensures
            r == self@.len(),
    {
        self.items.len()
    }

    /// Removes every key.
    pub fn clear(&mut self)
        ensures
            final(self)@ == Seq::<u64>::empty(),
    {
        self.items.clear();
    }

    /// Adds one key.
    pub fn push(&mut self, key: u64)
        ensures
            final(self)@ == old(self)@.push(key),
    {
        self.items.push(key);
    }

    /// Takes out the first occurrence of the smallest key, or returns `None`
    /// when the queue is empty.
    pub fn pop(&mut self) -> (r: Option<u64>)
        ensures
            match r {
                None => old(self)@.len() == 0 && final(self)@ == old(self)@,
                Some(k) => {
                    &&& is_first_least(old(self)@, first_least(old(self)@))
                    &&& k == old(self)@[first_least(old(self)@)]
                    &&& final(self)@ == old(self)@.remove(first_least(old(self)@))
                    &&& forall|j: int| 0 <= j < old(self)@.len() ==> k <= #[trigger] old(self)@[j]
                    &&& final(self)@.len() == old(self)@.len() - 1
                    &&& forall|x: u64| #[trigger]
                        final(self)@.contains(x) ==> old(self)@.contains(x)
                    &&& forall|x: u64|
                        #[trigger] old(self)@.contains(x) && x != k ==> final(self)@.contains(x)
                },
            },
    {
        let n: usize = self.items.len();
        if n == 0 {
            return None;
        }
        let mut best: usize = 0;
        let mut i: usize = 1;
        while i < n
            invariant
                n == self.items@.len(),
                0 <= best < i <= n,
                forall|j: int| 0 <= j < i ==> self.items@[best as int] <= #[trigger] self.items@[j],
                forall|j: int| 0 <= j < best ==> self.items@[best as int] < #[trigger] self.items@[j],
            decreases n - i,
        {
            if self.items[i] < self.items[best] {
                best = i;
            }
            i = i + 1;
        }
        let ghost before = self.items@;
        let k: u64 = self.items.remove(best);
        proof {
            let after = self.items@;
            assert(after == before.remove(best as int));
            assert(is_first_least(before, best as int));
            lemma_first_least_unique(before, best as int);
            assert forall|x: u64| #[trigger] after.contains(x) implies before.contains(x) by {
                let j = choose|j: int| 0 <= j < after.len() && after[j] == x;
                if j < best {
                    assert(before[j] == x);
                } else {
                    assert(before[j + 1] == x);
                }
            }
            assert forall|x: u64| #[trigger] before.contains(x) && x != k implies after.contains(
                x,
            ) by {
                let j = choose|j: int| 0 <= j < before.len() && before[j] == x;
                if j < best {
                    assert(after[j] == x);
                } else {
                    assert(after[j - 1] == x);
                }
            }
        }
        Some(k)
    }
}

} // verus!
