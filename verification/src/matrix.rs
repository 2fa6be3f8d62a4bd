//! Read access to a sparse matrix, one row at a time.

use vstd::prelude::*;
use crate::ring::RingMetadata;

verus! {

/// Whether the major dimension of a matrix, the one it is stored and read
/// along, is that of its rows or that of its columns.
#[derive(Clone, Copy, Debug)]
pub enum MajorDimension {
    Row,
    Col,
}

/// A sparse matrix that hands out its rows on request.
///
/// The row of a major key is a finite sequence of pairs, each a minor key
/// with its coefficient. Asking twice for the same row gives the same
/// answer.
pub trait SmOracle {
    /// The oracle is in a usable state.
    spec fn wf(&self) -> bool;

    /// The coefficient ring of the matrix.
    spec fn ring_spec(&self) -> RingMetadata;

    /// The entries of the row `majkey`.
    spec fn row_spec(&self, majkey: u64) -> Seq<(u64, u64)>;

    /// The coefficient ring of the matrix.
    fn ring(&self) -> (r: RingMetadata)
        requires
            self.wf(),
        ensures
            r == self.ring_spec(),
            r.wf(),
    ;

    /// The entries of the row `majkey`.
    fn maj_itr(&self, majkey: u64) -> (row: Vec<(u64, u64)>)
        requires
            self.wf(),
        ensures
            row@ == self.row_spec(majkey),
    ;
}

/// The row stored for `key` at or behind position `from`: that of the first
/// position that holds `key`, or no entry at all.
pub open spec fn stored_row(
    majkeys: Seq<u64>,
    rows: Seq<Vec<(u64, u64)>>,
    key: u64,
    from: int,
) -> Seq<(u64, u64)>
    decreases majkeys.len() - from,
{
    if from < 0 || from >= majkeys.len() || from >= rows.len() {
        Seq::empty()
    } else if majkeys[from] == key {
        rows[from]@
    } else {
        stored_row(majkeys, rows, key, from + 1)
    }
}

/// A sparse matrix held in memory: `rows[i]` is the row of the major key
/// `majkeys[i]`. A major key that is not listed has the empty row.
pub struct RowTable {
    pub ringmetadata: RingMetadata,
    pub majkeys: Vec<u64>,
    pub rows: Vec<Vec<(u64, u64)>>,
}

impl RowTable {
    /// A matrix without rows over the given ring.
    pub fn new(ringmetadata: RingMetadata) -> (r: RowTable)
        ensures
            r.ringmetadata == ringmetadata,
            r.majkeys@.len() == 0,
            r.rows@.len() == 0,
    {
        RowTable { ringmetadata, majkeys: Vec::new(), rows: Vec::new() }
    }

    /// Adds a row behind those already stored.
    pub fn push_row(&mut self, majkey: u64, row: Vec<(u64, u64)>)
        ensures
            final(self).ringmetadata == old(self).ringmetadata,
            final(self).majkeys@ == old(self).majkeys@.push(majkey),
            final(self).rows@ == old(self).rows@.push(row),
    {
        self.majkeys.push(majkey);
        self.rows.push(row);
    }
}

impl SmOracle for RowTable {
    open spec fn wf(&self) -> bool {
        self.ringmetadata.wf() && self.majkeys@.len() == self.rows@.len()
    }

    open spec fn ring_spec(&self) -> RingMetadata {
        self.ringmetadata
    }

    open spec fn row_spec(&self, majkey: u64) -> Seq<(u64, u64)> {
        stored_row(self.majkeys@, self.rows@, majkey, 0)
    }

    fn ring(&self) -> (r: RingMetadata) {
        self.ringmetadata
    }

    fn maj_itr(&self, majkey: u64) -> (row: Vec<(u64, u64)>) {
        let n: usize = self.majkeys.len();
        let mut i: usize = 0;
        while i < n
            invariant
                n == self.majkeys@.len(),
                n == self.rows@.len(),
                0 <= i <= n,
                stored_row(self.majkeys@, self.rows@, majkey, 0) == stored_row(
                    self.majkeys@,
                    self.rows@,
                    majkey,
                    i as int,
                ),
            decreases n - i,
        {
            if self.majkeys[i] == majkey {
                let source: &Vec<(u64, u64)> = &self.rows[i];
                let m: usize = source.len();
                let mut row: Vec<(u64, u64)> = Vec::with_capacity(m);
                let mut j: usize = 0;
                while j < m
                    invariant
                        m == source@.len(),
                        0 <= j <= m,
                        row@ == source@.take(j as int),
                    decreases m - j,
                {
                    row.push((source[j].0, source[j].1));
                    proof {
                        assert(row@ =~= source@.take(j + 1));
                    }
                    j = j + 1;
                }
                proof {
                    assert(source@.take(m as int) == source@);
                }
                return row;
            }
            i = i + 1;
        }
        Vec::new()
    }
}

} // verus!
