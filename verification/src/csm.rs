//! A sparse matrix in compressed form, built one row after the other.

use vstd::prelude::*;
use crate::matrix::MajorDimension;
use crate::ring::RingMetadata;
use crate::trim::shrink_vec;

verus! {

/// A compressed sparse matrix over the ring `ring`.
///
/// Row `i` is the run of entries from position `majptr[i]` up to, not
/// including, position `majptr[i + 1]` of `minind` (the minor indices) and
/// `snzval` (the coefficients). Entries behind the last closed row are
/// pending: they become the start of the next row.
pub struct CSM {
    pub majdim: MajorDimension,
    pub ring: RingMetadata,
    pub nummaj: usize,
    pub majptr: Vec<usize>,
    pub minind: Vec<u64>,
    pub snzval: Vec<u64>,
}

impl View for CSM {
    type V = Seq<Seq<(u64, u64)>>;

    /// The closed rows, each as the sequence of its entries.
    open spec fn view(&self) -> Seq<Seq<(u64, u64)>> {
        Seq::new(self.nummaj as nat, |i: int| self.row(i))
    }
}

impl CSM {
    /// The row pointers ascend from zero and stay inside the storage.
    pub open spec fn wf(&self) -> bool {
        &&& self.majptr@.len() == self.nummaj + 1
        &&& self.majptr@[0] == 0
        &&& forall|i: int, j: int|
            0 <= i <= j <= self.nummaj ==> #[trigger] self.majptr@[i] <= #[trigger] self.majptr@[j]
        &&& self.majptr@[self.nummaj as int] <= self.minind@.len()
        &&& self.minind@.len() == self.snzval@.len()
    }

    /// The entries of row `i`, each a minor index with its coefficient.
    pub open spec fn row(&self, i: int) -> Seq<(u64, u64)> {
        Seq::new(
            (self.majptr@[i + 1] - self.majptr@[i]) as nat,
            |j: int| (self.minind@[self.majptr@[i] + j], self.snzval@[self.majptr@[i] + j]),
        )
    }

    /// The entries stored behind the last closed row.
    pub open spec fn pending(&self) -> Seq<(u64, u64)> {
        Seq::new(
            (self.minind@.len() - self.majptr@[self.nummaj as int]) as nat,
            |j: int|
                (
                    self.minind@[self.majptr@[self.nummaj as int] + j],
                    self.snzval@[self.majptr@[self.nummaj as int] + j],
                ),
        )
    }

    /// Row `i` starts with the coefficient one at its own index, and every
    /// other entry of it refers to an earlier row.
    pub open spec fn triangular(&self) -> bool {
        forall|i: int|
            0 <= i < self.nummaj ==> {
                &&& (#[trigger] self.row(i)).len() >= 1
                &&& self.row(i)[0] == (i as u64, 1u64)
                &&& forall|j: int| 1 <= j < self.row(i).len() ==> (#[trigger] self.row(i)[j]).0 < i
            }
    }

    /// An empty matrix with room for `capacity` rows.
    pub fn with_capacity(capacity: usize, majdim: MajorDimension, ring: RingMetadata) -> (m: CSM)
        ensures
            m.wf(),
            m.majdim == majdim,
            m.ring == ring,
            m.nummaj == 0,
            m.minind@.len() == 0,
            m.triangular(),
    {
        let mut majptr: Vec<usize> = Vec::with_capacity(capacity);
        majptr.push(0);
        CSM {
            majdim,
            ring,
            nummaj: 0,
            majptr,
            minind: Vec::with_capacity(capacity),
            snzval: Vec::with_capacity(capacity),
        }
    }

    /// Stores one pending entry: the coefficient `value` at the minor index
    /// `index`.
    pub fn push_snzval(&mut self, index: u64, value: u64)
        requires
            old(self).wf(),
        ensures
            final(self).wf(),
            final(self).majdim == old(self).majdim,
            final(self).ring == old(self).ring,
            final(self).nummaj == old(self).nummaj,
            final(self).majptr@ == old(self).majptr@,
            final(self).minind@ == old(self).minind@.push(index),
            final(self).snzval@ == old(self).snzval@.push(value),
            final(self).pending() == old(self).pending().push((index, value)),
            forall|i: int| 0 <= i < old(self).nummaj ==> #[trigger] final(self).row(i) == old(self).row(i),
    {
        self.minind.push(index);
        self.snzval.push(value);
        proof {
            assert(final(self).pending() =~= old(self).pending().push((index, value)));
            assert forall|i: int| 0 <= i < old(self).nummaj implies #[trigger] final(self).row(i)
                == old(self).row(i) by {
                assert(old(self).majptr@[i] <= old(self).majptr@[i + 1]);
                assert(old(self).majptr@[i + 1] <= old(self).majptr@[old(self).nummaj as int]);
                assert(final(self).row(i) =~= old(self).row(i));
            }
        }
    }

    /// Closes the next row: it consists of the pending entries followed by
    /// the entries of `row`, which is used up.
    pub fn append_maj(&mut self, row: &mut Vec<(u64, u64)>)
        requires
            old(self).wf(),
        ensures
            final(self).wf(),
            final(self).majdim == old(self).majdim,
            final(self).ring == old(self).ring,
            final(self).nummaj == old(self).nummaj + 1,
            final(self).pending().len() == 0,
            final(self).row(old(self).nummaj as int) == old(self).pending() + old(row)@,
            forall|i: int| 0 <= i < old(self).nummaj ==> #[trigger] final(self).row(i) == old(self).row(i),
            final(row)@.len() == 0,
    {
        let n: usize = row.len();
        let mut i: usize = 0;
        while i < n
            invariant
                self.wf(),
                self.majdim == old(self).majdim,
                self.ring == old(self).ring,
                self.nummaj == old(self).nummaj,
                self.majptr@ == old(self).majptr@,
                row@ == old(row)@,
                n == row@.len(),
                0 <= i <= n,
                self.pending() == old(self).pending() + row@.take(i as int),
                forall|r: int| 0 <= r < old(self).nummaj ==> #[trigger] self.row(r) == old(self).row(r),
            decreases n - i,
        {
            let ghost before = self.pending();
            self.push_snzval(row[i].0, row[i].1);
            proof {
                assert(before.push(row@[i as int]) =~= old(self).pending() + row@.take(i + 1));
            }
            i = i + 1;
        }
        let ghost filled = *self;
        let end: usize = self.minind.len();
        self.majptr.push(end);
        let closed: usize = self.majptr.len();
        self.nummaj = closed - 1;
        row.clear();
        proof {
            assert(old(row)@.take(n as int) == old(row)@);
            assert(final(self).row(old(self).nummaj as int) =~= filled.pending());
            assert forall|r: int| 0 <= r < old(self).nummaj implies #[trigger] final(self).row(r)
                == old(self).row(r) by {
                assert(final(self).row(r) =~= filled.row(r));
            }
        }
    }

    /// Gives back the capacity that is not in use.
    pub fn shrink_to_fit(&mut self)
        ensures
            final(self).majdim == old(self).majdim,
            final(self).ring == old(self).ring,
            final(self).nummaj == old(self).nummaj,
            final(self).majptr@ == old(self).majptr@,
            final(self).minind@ == old(self).minind@,
            final(self).snzval@ == old(self).snzval@,
    {
        shrink_vec(&mut self.majptr);
        shrink_vec(&mut self.minind);
        shrink_vec(&mut self.snzval);
    }

    /// The entries of the closed row `index`.
    pub fn maj_hash(&self, index: usize) -> (row: Vec<(u64, u64)>)
        requires
            self.wf(),
            index < self.nummaj,
        ensures
            row@ == self.row(index as int),
    {
        let start: usize = self.majptr[index];
        let end: usize = self.majptr[index + 1];
        proof {
            assert(self.majptr@[index as int] <= self.majptr@[index + 1]);
            assert(self.majptr@[index + 1] <= self.majptr@[self.nummaj as int]);
        }
        let mut row: Vec<(u64, u64)> = Vec::new();
        let mut p: usize = start;
        while p < end
            invariant
                start <= p <= end <= self.minind@.len(),
                self.minind@.len() == self.snzval@.len(),
                start == self.majptr@[index as int],
                end == self.majptr@[index + 1],
                row@ == self.row(index as int).take(p - start),
            decreases end - p,
        {
            row.push((self.minind[p], self.snzval[p]));
            proof {
                assert(row@ =~= self.row(index as int).take(p + 1 - start));
            }
            p = p + 1;
        }
        proof {
            assert(self.row(index as int).take(end - start) == self.row(index as int));
        }
        row
    }
}

} // verus!
