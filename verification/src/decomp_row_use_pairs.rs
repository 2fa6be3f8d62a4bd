//! Triangular factorization of a sparse matrix oracle, restricted to chosen
//! rows and columns, and the sparse accumulator it works on.
//!
//! A sparse accumulator is a hash map from key to coefficient, which is
//! authoritative, together with a queue of candidate keys, which may hold
//! keys that the map has lost since.

use std::collections::HashMap;
use std::collections::HashSet;
use vstd::prelude::*;
use crate::chx::Indexing;
use crate::csm::CSM;
use crate::heap::{first_least, MinHeap};
use crate::matrix::{MajorDimension, SmOracle};
use crate::ring::RingMetadata;

verus! {

broadcast use vstd::std_specs::hash::group_hash_axioms;

/// Every key of the map is held by the queue at least once.
pub open spec fn covers(heap: Seq<u64>, hash: Map<u64, u64>) -> bool {
    forall|k: u64| #[trigger] hash.contains_key(k) ==> heap.contains(k)
}

/// Some entry of `row` has the key `k`.
pub open spec fn has_key(row: Seq<(u64, u64)>, k: u64) -> bool {
    exists|j: int| 0 <= j < row.len() && (#[trigger] row[j]).0 == k
}

/// The accumulator `acc` after `scale` times the single entry `(key, val)`
/// was added to it.
pub open spec fn merge_entry(
    ring: RingMetadata,
    acc: Map<u64, u64>,
    key: u64,
    val: u64,
    scale: u64,
) -> Map<u64, u64> {
    let value = ring.residue(scale * val);
    if acc.contains_key(key) {
        let total = ring.residue(acc[key] + value);
        if total == 0 {
            acc.remove(key)
        } else {
            acc.insert(key, total as u64)
        }
    } else if value != 0 {
        acc.insert(key, value as u64)
    } else {
        acc
    }
}

/// The accumulator `acc` after `scale` times `row` was added to it, entry
/// by entry from the front.
pub open spec fn merge_rows(
    ring: RingMetadata,
    acc: Map<u64, u64>,
    row: Seq<(u64, u64)>,
    scale: u64,
) -> Map<u64, u64>
    decreases row.len(),
{
    if row.len() == 0 {
        acc
    } else {
        merge_entry(
            ring,
            merge_rows(ring, acc, row.drop_last(), scale),
            row.last().0,
            row.last().1,
            scale,
        )
    }
}

/// The keys that enter the queue when `scale` times `row` is added to
/// `acc`: the key of each entry that finds the map without its key and has a
/// nonzero product, in the order of the entries.
pub open spec fn pushed_keys(
    ring: RingMetadata,
    acc: Map<u64, u64>,
    row: Seq<(u64, u64)>,
    scale: u64,
) -> Seq<u64>
    decreases row.len(),
{
    if row.len() == 0 {
        Seq::empty()
    } else {
        let earlier = pushed_keys(ring, acc, row.drop_last(), scale);
        if !merge_rows(ring, acc, row.drop_last(), scale).contains_key(row.last().0)
            && ring.residue(scale * row.last().1) != 0 {
            earlier.push(row.last().0)
        } else {
            earlier
        }
    }
}

/// The queue `heap` after its keys were taken out, smallest first, up to
/// and with the first one that the map `hash` holds.
pub open spec fn without_leading(heap: Seq<u64>, hash: Map<u64, u64>) -> Seq<u64>
    decreases heap.len(),
{
    if heap.len() == 0 {
        heap
    } else {
        let i = first_least(heap);
        if 0 <= i < heap.len() {
            if hash.contains_key(heap[i]) {
                heap.remove(i)
            } else {
                without_leading(heap.remove(i), hash)
            }
        } else {
            heap
        }
    }
}

/// `k` is the smallest key of `m` above `floor`.
pub open spec fn is_least_above(m: Map<u64, u64>, floor: int, k: u64) -> bool {
    &&& m.contains_key(k)
    &&& k > floor
    &&& forall|j: u64| #[trigger] m.contains_key(j) && j > floor ==> k <= j
}

/// The smallest key of `m` above `floor`, where there is one.
pub open spec fn least_above(m: Map<u64, u64>, floor: int) -> u64 {
    choose|k: u64| is_least_above(m, floor, k)
}

/// The entries of `m` whose key lies above `floor`, by ascending key.
pub open spec fn listing(m: Map<u64, u64>, floor: int) -> Seq<(u64, u64)>
    decreases u64::MAX - floor,
{
    if exists|k: u64| is_least_above(m, floor, k) {
        let k = least_above(m, floor);
        seq![(k, m[k])] + listing(m, k as int)
    } else {
        Seq::empty()
    }
}

/// The smallest key above a floor is unique.
pub proof fn lemma_least_above_unique(m: Map<u64, u64>, floor: int, k: u64)
    requires
        is_least_above(m, floor, k),
    ensures
        least_above(m, floor) == k,
{
    let chosen = least_above(m, floor);
    assert(is_least_above(m, floor, chosen));
    assert(m.contains_key(chosen));
    assert(m.contains_key(k));
}

/// Scales a sparse row and adds it to a sparse accumulator.
///
/// Each entry of `row` is multiplied by `scale` and added to `hash`; a sum
/// that the ring judges zero leaves the map, and its key stays behind in the
/// queue. A key new to the map enters the queue. The row is used up.
pub fn update_heap_hash(
    ringmetadata: &RingMetadata,
    heap: &mut MinHeap,
    hash: &mut HashMap<u64, u64>,
    row: &mut Vec<(u64, u64)>,
    scale: u64,
)
    requires
        ringmetadata.wf(),
    ensures
        final(hash)@ == merge_rows(*ringmetadata, old(hash)@, old(row)@, scale),
        final(heap)@ == old(heap)@ + pushed_keys(*ringmetadata, old(hash)@, old(row)@, scale),
        final(row)@.len() == 0,
        covers(old(heap)@, old(hash)@) ==> covers(final(heap)@, final(hash)@),
        forall|x: u64| #[trigger] old(heap)@.contains(x) ==> final(heap)@.contains(x),
        forall|x: u64| #[trigger]
            final(heap)@.contains(x) ==> old(heap)@.contains(x) || has_key(old(row)@, x),
        forall|k: u64| #[trigger]
            final(hash)@.contains_key(k) ==> old(hash)@.contains_key(k) || has_key(old(row)@, k),
{
    let n: usize = row.len();
    let mut i: usize = 0;
    while i < n
        invariant
            ringmetadata.wf(),
            n == row@.len(),
            row@ == old(row)@,
            0 <= i <= n,
            hash@ == merge_rows(*ringmetadata, old(hash)@, row@.take(i as int), scale),
            heap@ == old(heap)@ + pushed_keys(
                *ringmetadata,
                old(hash)@,
                row@.take(i as int),
                scale,
            ),
            covers(old(heap)@, old(hash)@) ==> covers(heap@, hash@),
            forall|x: u64| #[trigger] old(heap)@.contains(x) ==> heap@.contains(x),
            forall|x: u64| #[trigger]
                heap@.contains(x) ==> old(heap)@.contains(x) || has_key(row@.take(i as int), x),
            forall|k: u64| #[trigger]
                hash@.contains_key(k) ==> old(hash)@.contains_key(k) || has_key(
                    row@.take(i as int),
                    k,
                ),
        decreases n - i,
    {
        let key: u64 = row[i].0;
        let val: u64 = row[i].1;
        let ghost before_hash = hash@;
        let ghost before_heap = heap@;
        let ghost done = row@.take(i as int);
        let ghost next = row@.take(i + 1);
        proof {
            assert(next.drop_last() == done);
            assert(next.last() == row@[i as int]);
            assert(next[i as int].0 == key);
            assert(has_key(next, key));
            assert forall|x: u64| has_key(done, x) implies has_key(next, x) by {
                let j = choose|j: int| 0 <= j < done.len() && (#[trigger] done[j]).0 == x;
                assert(next[j].0 == x);
            }
            assert forall|x: u64| has_key(next, x) && x != key implies has_key(done, x) by {
                let j = choose|j: int| 0 <= j < next.len() && (#[trigger] next[j]).0 == x;
                assert(done[j].0 == x);
            }
        }
        let value: u64 = ringmetadata.product(scale, val);
        let present: Option<u64> = match hash.get(&key) {
            Some(x) => Some(*x),
            None => None,
        };
        match present {
            Some(x) => {
                let total: u64 = ringmetadata.sum(x, value);
                if total == 0 {
                    hash.remove(&key);
                } else {
                    hash.insert(key, total);
                }
            },
            None => {
                if value != 0 {
                    heap.push(key);
                    hash.insert(key, value);
                    proof {
                        assert(heap@[before_heap.len() as int] == key);
                        assert forall|x: u64| #[trigger]
                            before_heap.contains(x) implies heap@.contains(x) by {
                            let j = choose|j: int| 0 <= j < before_heap.len() && before_heap[j] == x;
                            assert(heap@[j] == x);
                        }
                        assert forall|x: u64| #[trigger] heap@.contains(x) implies x == key
                            || before_heap.contains(x) by {
                            let j = choose|j: int| 0 <= j < heap@.len() && heap@[j] == x;
                            if j < before_heap.len() {
                                assert(before_heap[j] == x);
                            }
                        }
                    }
                }
            },
        }
        proof {
            assert(hash@ == merge_entry(*ringmetadata, before_hash, key, val, scale));
            let earlier = pushed_keys(*ringmetadata, old(hash)@, done, scale);
            if !before_hash.contains_key(key) && value != 0 {
                assert(heap@ =~= old(heap)@ + earlier.push(key));
            }
        }
        i = i + 1;
    }
    proof {
        assert(row@.take(n as int) == row@);
        assert(old(heap)@ + Seq::<u64>::empty() =~= old(heap)@);
    }
    row.clear();
}

/// Takes the smallest live key out of a sparse accumulator, with its
/// coefficient.
///
/// Keys of the queue that the map no longer holds are passed over and
/// dropped. The result is `None` when no key of the queue is live.
pub fn pop_leading(heap: &mut MinHeap, hash: &mut HashMap<u64, u64>) -> (r: Option<(u64, u64)>)
    requires
        covers(old(heap)@, old(hash)@),
    ensures
        final(heap)@ == without_leading(old(heap)@, old(hash)@),
        covers(final(heap)@, final(hash)@),
        forall|x: u64| #[trigger] final(heap)@.contains(x) ==> old(heap)@.contains(x),
        match r {
            Some((k, v)) => {
                &&& old(hash)@.contains_key(k)
                &&& old(hash)@[k] == v
                &&& final(hash)@ == old(hash)@.remove(k)
                &&& forall|j: u64| #[trigger] old(hash)@.contains_key(j) ==> k <= j
                &&& final(heap)@.len() < old(heap)@.len()
            },
            None => {
                &&& old(hash)@ == Map::<u64, u64>::empty()
                &&& final(hash)@ == old(hash)@
                &&& final(heap)@.len() == 0
            },
        },
{
    loop
        invariant
            hash@ == old(hash)@,
            covers(heap@, hash@),
            heap@.len() <= old(heap)@.len(),
            without_leading(heap@, hash@) == without_leading(old(heap)@, old(hash)@),
            forall|x: u64| #[trigger] heap@.contains(x) ==> old(heap)@.contains(x),
        decreases heap@.len(),
    {
        let ghost before = heap@;
        match heap.pop() {
            None => {
                proof {
                    assert forall|k: u64| !hash@.contains_key(k) by {
                        if hash@.contains_key(k) {
                            assert(heap@.contains(k));
                        }
                    }
                    assert(hash@ =~= Map::<u64, u64>::empty());
                }
                return None;
            },
            Some(k) => {
                match hash.remove(&k) {
                    Some(v) => {
                        proof {
                            assert forall|j: u64| #[trigger]
                                old(hash)@.contains_key(j) implies k <= j by {
                                assert(before.contains(j));
                            }
                        }
                        return Some((k, v));
                    },
                    None => {},
                }
            },
        }
    }
}

/// Empties a sparse accumulator into a row whose keys ascend.
pub fn drain_sorted(heap: &mut MinHeap, hash: &mut HashMap<u64, u64>) -> (row: Vec<(u64, u64)>)
    requires
        covers(old(heap)@, old(hash)@),
    ensures
        row@ == listing(old(hash)@, -1),
        final(hash)@ == Map::<u64, u64>::empty(),
        final(heap)@.len() == 0,
        forall|i: int, j: int| 0 <= i < j < row@.len() ==> (#[trigger] row@[i]).0 < (#[trigger] row@[j]).0,
        forall|i: int|
            0 <= i < row@.len() ==> old(hash)@.contains_key((#[trigger] row@[i]).0) && old(hash)@[row@[i].0]
                == row@[i].1,
        forall|k: u64| #[trigger] old(hash)@.contains_key(k) ==> has_key(row@, k),
{
    let mut row: Vec<(u64, u64)> = Vec::new();
    let ghost mut floor: int = -1;
    loop
        invariant
            covers(heap@, hash@),
            -1 <= floor <= u64::MAX,
            forall|k: u64| #[trigger] hash@.contains_key(k) ==> k > floor,
            forall|k: u64| #[trigger]
                old(hash)@.contains_key(k) && k > floor ==> hash@.contains_key(k),
            row@ + listing(old(hash)@, floor) == listing(old(hash)@, -1),
            forall|i: int, j: int|
                0 <= i < j < row@.len() ==> (#[trigger] row@[i]).0 < (#[trigger] row@[j]).0,
            forall|i: int|
                0 <= i < row@.len() ==> old(hash)@.contains_key((#[trigger] row@[i]).0) && old(hash)@[row@[i].0] == row@[i].1,
            forall|i: int, k: u64|
                0 <= i < row@.len() && #[trigger] hash@.contains_key(k) ==> (#[trigger] row@[i]).0 < k,
            forall|k: u64| #[trigger]
                hash@.contains_key(k) ==> old(hash)@.contains_key(k) && old(hash)@[k] == hash@[k],
            forall|k: u64| #[trigger]
                old(hash)@.contains_key(k) ==> hash@.contains_key(k) || has_key(row@, k),
        decreases heap@.len(),
    {
        let ghost before_row = row@;
        let ghost before_hash = hash@;
        match pop_leading(heap, hash) {
            None => {
                proof {
                    assert forall|k: u64| !is_least_above(old(hash)@, floor, k) by {
                        if is_least_above(old(hash)@, floor, k) {
                            assert(hash@.contains_key(k));
                        }
                    }
                    assert(listing(old(hash)@, floor) =~= Seq::<(u64, u64)>::empty());
                    assert(row@ + Seq::<(u64, u64)>::empty() =~= row@);
                }
                return row;
            },
            Some((k, v)) => {
                row.push((k, v));
                proof {
                    assert(before_hash.contains_key(k));
                    assert forall|j: u64| #[trigger]
                        old(hash)@.contains_key(j) && j > floor implies k <= j by {
                        assert(before_hash.contains_key(j));
                    }
                    assert(is_least_above(old(hash)@, floor, k));
                    lemma_least_above_unique(old(hash)@, floor, k);
                    assert(listing(old(hash)@, floor) == seq![(k, v)] + listing(
                        old(hash)@,
                        k as int,
                    ));
                    assert(row@ + listing(old(hash)@, k as int) =~= before_row + listing(
                        old(hash)@,
                        floor,
                    ));
                    floor = k as int;
                    assert(row@[before_row.len() as int].0 == k);
                    assert(has_key(row@, k));
                    assert forall|x: u64| has_key(before_row, x) implies has_key(row@, x) by {
                        let j = choose|j: int|
                            0 <= j < before_row.len() && (#[trigger] before_row[j]).0 == x;
                        assert(row@[j].0 == x);
                    }
                }
            },
        }
    }
}

/// The entries of `row` whose key lies in `active`, in their order.
pub open spec fn restricted(row: Seq<(u64, u64)>, active: Set<u64>) -> Seq<(u64, u64)>
    decreases row.len(),
{
    if row.len() == 0 {
        Seq::empty()
    } else {
        let front = restricted(row.drop_last(), active);
        if active.contains(row.last().0) {
            front.push(row.last())
        } else {
            front
        }
    }
}

/// The map that holds, for each key of `row`, the coefficient of the last
/// entry with that key.
pub open spec fn loaded(row: Seq<(u64, u64)>) -> Map<u64, u64>
    decreases row.len(),
{
    if row.len() == 0 {
        Map::empty()
    } else {
        loaded(row.drop_last()).insert(row.last().0, row.last().1)
    }
}

/// The linear combination of matrix rows that `ops` describes, restricted
/// to the columns in `active`: each entry of `ops` names a row by the index
/// of its major key in `majkeys` and gives the factor for that row.
pub open spec fn combination<Matrix: SmOracle>(
    matrix: &Matrix,
    majkeys: Seq<u64>,
    ops: Seq<(u64, u64)>,
    active: Set<u64>,
) -> Map<u64, u64>
    decreases ops.len(),
{
    if ops.len() == 0 {
        Map::empty()
    } else {
        merge_rows(
            matrix.ring_spec(),
            combination(matrix, majkeys, ops.drop_last(), active),
            restricted(matrix.row_spec(majkeys[ops.last().0 as int]), active),
            ops.last().1,
        )
    }
}

/// The keys that enter the queue while the combination that `ops`
/// describes is built, in the order of their arrival.
pub open spec fn combination_keys<Matrix: SmOracle>(
    matrix: &Matrix,
    majkeys: Seq<u64>,
    ops: Seq<(u64, u64)>,
    active: Set<u64>,
) -> Seq<u64>
    decreases ops.len(),
{
    if ops.len() == 0 {
        Seq::empty()
    } else {
        combination_keys(matrix, majkeys, ops.drop_last(), active) + pushed_keys(
            matrix.ring_spec(),
            combination(matrix, majkeys, ops.drop_last(), active),
            restricted(matrix.row_spec(majkeys[ops.last().0 as int]), active),
            ops.last().1,
        )
    }
}

/// What became of the attempt to cancel a leading entry against a pivot.
#[derive(Clone, Copy, Debug, PartialEq, Eq, Structural)]
pub enum Cancellation {
    /// The cancelling multiple of the pivot's row was added.
    Cancelled,
    /// The rebuilt row of the pivot has no entry in the pivot's column.
    NoDominator,
    /// The dominator has no inverse in the ring.
    NonInvertibleDominator,
    /// The rebuilt row of the pivot has an entry before the pivot's column.
    EntryBeforePivot,
}

/// What becomes of the attempt to cancel an entry in the column `minkey`
/// against the pivot whose row operation is `oprow`.
pub open spec fn cancellation<Matrix: SmOracle>(
    matrix: &Matrix,
    majkeys: Seq<u64>,
    active: Set<u64>,
    oprow: Seq<(u64, u64)>,
    minkey: u64,
) -> Cancellation {
    let rebuilt = combination(matrix, majkeys, oprow, active);
    if !rebuilt.contains_key(minkey) {
        Cancellation::NoDominator
    } else if !matrix.ring_spec().invertible(rebuilt[minkey] as int) {
        Cancellation::NonInvertibleDominator
    } else if exists|k: u64| #[trigger] rebuilt.contains_key(k) && k < minkey {
        Cancellation::EntryBeforePivot
    } else {
        Cancellation::Cancelled
    }
}

/// The factor by which the row of a pivot is multiplied to cancel the entry
/// `leading` against the pivot's own entry `dominator`, a unit.
pub open spec fn cancelling_scale(ring: RingMetadata, leading: u64, dominator: u64) -> u64 {
    ring.residue(ring.opposite(leading as int) * ring.least_inverse(dominator as int)) as u64
}

/// The row under reduction and the row operation under construction after
/// the entry `leading` in the column `minkey`, already taken out of
/// `reduced`, was cancelled against the pivot whose row operation is
/// `oprow`.
///
/// The row of the pivot is the combination that `oprow` describes. Where its
/// entry at `minkey` is a unit and none of its entries lies before `minkey`,
/// the cancelling multiple of its other entries is added to `reduced`, and
/// the same multiple of `oprow` to `ops`. Otherwise both stay as they are.
pub open spec fn cancelled<Matrix: SmOracle>(
    matrix: &Matrix,
    majkeys: Seq<u64>,
    active: Set<u64>,
    oprow: Seq<(u64, u64)>,
    minkey: u64,
    leading: u64,
    reduced: Map<u64, u64>,
    ops: Map<u64, u64>,
) -> (Map<u64, u64>, Map<u64, u64>) {
    let ring = matrix.ring_spec();
    let rebuilt = combination(matrix, majkeys, oprow, active);
    if cancellation(matrix, majkeys, active, oprow, minkey) == Cancellation::Cancelled {
        let scale = cancelling_scale(ring, leading, rebuilt[minkey]);
        (
            merge_rows(ring, reduced, listing(rebuilt.remove(minkey), -1), scale),
            merge_rows(ring, ops, oprow, scale),
        )
    } else {
        (reduced, ops)
    }
}

/// The queues of the row under reduction and of the row operation under
/// construction after a cancellation: where the multiple was added, each has
/// the keys behind it that entered its map.
pub open spec fn cancelled_queues<Matrix: SmOracle>(
    matrix: &Matrix,
    majkeys: Seq<u64>,
    active: Set<u64>,
    oprow: Seq<(u64, u64)>,
    minkey: u64,
    leading: u64,
    reduced: Map<u64, u64>,
    ops: Map<u64, u64>,
    heap_reduced: Seq<u64>,
    heap_ops: Seq<u64>,
) -> (Seq<u64>, Seq<u64>) {
    let ring = matrix.ring_spec();
    let rebuilt = combination(matrix, majkeys, oprow, active);
    if cancellation(matrix, majkeys, active, oprow, minkey) == Cancellation::Cancelled {
        let scale = cancelling_scale(ring, leading, rebuilt[minkey]);
        (
            heap_reduced + pushed_keys(ring, reduced, listing(rebuilt.remove(minkey), -1), scale),
            heap_ops + pushed_keys(ring, ops, oprow, scale),
        )
    } else {
        (heap_reduced, heap_ops)
    }
}

/// The outcome of reducing a row against the pivots found so far, from the
/// state in which the entries of `reduced` above `floor` are left of the row
/// and `ops` is the row operation built up to here.
///
/// The pivots are given by their row operations `rows`, their major keys
/// `majkeys` and their minor keys `minkeys`. The outcome is the minor key of
/// the new pivot with its row operation, or `None` where the row reduces to
/// zero.
pub open spec fn elimination<Matrix: SmOracle>(
    matrix: &Matrix,
    rows: Seq<Seq<(u64, u64)>>,
    majkeys: Seq<u64>,
    minkeys: Seq<u64>,
    active: Set<u64>,
    reduced: Map<u64, u64>,
    ops: Map<u64, u64>,
    floor: int,
) -> Option<(u64, Map<u64, u64>)>
    decreases u64::MAX - floor,
{
    if exists|k: u64| is_least_above(reduced, floor, k) {
        let k = least_above(reduced, floor);
        let rest = reduced.remove(k);
        if matrix.ring_spec().residue(reduced[k] as int) == 0 {
            elimination(matrix, rows, majkeys, minkeys, active, rest, ops, k as int)
        } else if minkeys.contains(k) {
            let next = cancelled(
                matrix,
                majkeys,
                active,
                rows[minkeys.index_of(k)],
                k,
                reduced[k],
                rest,
                ops,
            );
            elimination(matrix, rows, majkeys, minkeys, active, next.0, next.1, k as int)
        } else {
            Some((k, ops))
        }
    } else {
        None
    }
}

/// The outcome of reducing the row `majkey` of the matrix, restricted to
/// the columns in `active`, against the given pivots.
pub open spec fn reduction<Matrix: SmOracle>(
    matrix: &Matrix,
    rows: Seq<Seq<(u64, u64)>>,
    majkeys: Seq<u64>,
    minkeys: Seq<u64>,
    active: Set<u64>,
    majkey: u64,
) -> Option<(u64, Map<u64, u64>)> {
    elimination(
        matrix,
        rows,
        majkeys,
        minkeys,
        active,
        loaded(restricted(matrix.row_spec(majkey), active)),
        Map::empty(),
        -1,
    )
}

/// The row operation stored for the pivot `index`: the coefficient one at
/// the pivot's own index, then the entries of `ops` by ascending index.
pub open spec fn stored_operation(index: int, ops: Map<u64, u64>) -> Seq<(u64, u64)> {
    seq![(index as u64, 1u64)] + listing(ops, -1)
}

/// The pivots after the last `done` major keys of `worklist` were reduced,
/// from the end backwards: their row operations, their major keys and their
/// minor keys, in the order of discovery.
pub open spec fn factored<Matrix: SmOracle>(
    matrix: &Matrix,
    worklist: Seq<u64>,
    done: int,
    active: Set<u64>,
) -> (Seq<Seq<(u64, u64)>>, Seq<u64>, Seq<u64>)
    decreases done,
{
    if done <= 0 {
        (Seq::empty(), Seq::empty(), Seq::empty())
    } else {
        let before = factored(matrix, worklist, done - 1, active);
        let majkey = worklist[worklist.len() - done];
        match reduction(matrix, before.0, before.1, before.2, active, majkey) {
            Some((minkey, ops)) => (
                before.0.push(stored_operation(before.0.len() as int, ops)),
                before.1.push(majkey),
                before.2.push(minkey),
            ),
            None => before,
        }
    }
}

/// No key occurs twice in `row`.
pub open spec fn distinct_keys(row: Seq<(u64, u64)>) -> bool {
    forall|i: int, j: int| 0 <= i < j < row.len() ==> (#[trigger] row[i]).0 != (#[trigger] row[j]).0
}

/// Every coefficient of `m` is canonical and not zero.
pub open spec fn nonzero_entries(ring: RingMetadata, m: Map<u64, u64>) -> bool {
    forall|k: u64| #[trigger] m.contains_key(k) ==> 0 < m[k] < ring.modulus
}

/// What a merge leaves at a key depends on the entry with that key alone.
///
/// Adding `scale` times a row without repeated keys to an accumulator
/// leaves a key that the row does not hold as it was, and treats a key that
/// the row holds as if the row had that one entry. So the order of the
/// entries in the row is of no account.
pub proof fn lemma_merge_rows_pointwise(
    ring: RingMetadata,
    acc: Map<u64, u64>,
    row: Seq<(u64, u64)>,
    scale: u64,
    k: u64,
)
    requires
        distinct_keys(row),
    ensures
        !has_key(row, k) ==> merge_rows(ring, acc, row, scale).contains_key(k)
            == acc.contains_key(k),
        !has_key(row, k) && acc.contains_key(k) ==> merge_rows(ring, acc, row, scale)[k] == acc[k],
        forall|j: int|
            0 <= j < row.len() && (#[trigger] row[j]).0 == k ==> merge_rows(
                ring,
                acc,
                row,
                scale,
            ).contains_key(k) == merge_entry(ring, acc, k, row[j].1, scale).contains_key(k),
        forall|j: int|
            0 <= j < row.len() && (#[trigger] row[j]).0 == k && merge_rows(
                ring,
                acc,
                row,
                scale,
            ).contains_key(k) ==> merge_rows(ring, acc, row, scale)[k] == merge_entry(
                ring,
                acc,
                k,
                row[j].1,
                scale,
            )[k],
    decreases row.len(),
{
    if row.len() > 0 {
        let front = row.drop_last();
        let last = row.last();
        assert forall|i: int, j: int| 0 <= i < j < front.len() implies (#[trigger] front[i]).0 != (
        #[trigger] front[j]).0 by {
            assert(front[i] == row[i]);
            assert(front[j] == row[j]);
        }
        lemma_merge_rows_pointwise(ring, acc, front, scale, k);
        if has_key(front, k) {
            let i = choose|i: int| 0 <= i < front.len() && (#[trigger] front[i]).0 == k;
            assert(row[i].0 == k);
        }
        if last.0 == k {
            assert(row[row.len() - 1].0 == k);
            if has_key(front, k) {
                let i = choose|i: int| 0 <= i < front.len() && (#[trigger] front[i]).0 == k;
                assert(front[i] == row[i]);
                assert(row[i].0 != row[row.len() - 1].0);
            }
            assert forall|j: int| 0 <= j < row.len() && (#[trigger] row[j]).0 == k implies j
                == row.len() - 1 by {
                if j < row.len() - 1 {
                    assert(row[j].0 != row[row.len() - 1].0);
                }
            }
        } else {
            assert forall|j: int| 0 <= j < row.len() && (#[trigger] row[j]).0 == k implies 0 <= j
                < front.len() && front[j].0 == k by {
                assert(j < row.len() - 1);
                assert(front[j] == row[j]);
            }
            if !has_key(row, k) {
                assert(!has_key(front, k));
            }
        }
    }
}

/// The order of the entries of a row is of no account to a merge.
///
/// Two rows without repeated keys that hold the same keys with the same
/// coefficients, in whatever order, leave the same accumulator behind. As the
/// leading entry is found from the accumulator's map alone, they lead to the
/// same pivots.
pub proof fn lemma_merge_rows_any_order(
    ring: RingMetadata,
    acc: Map<u64, u64>,
    first: Seq<(u64, u64)>,
    second: Seq<(u64, u64)>,
    scale: u64,
)
    requires
        distinct_keys(first),
        distinct_keys(second),
        forall|i: int| 0 <= i < first.len() ==> second.contains(#[trigger] first[i]),
        forall|j: int| 0 <= j < second.len() ==> first.contains(#[trigger] second[j]),
    ensures
        merge_rows(ring, acc, first, scale) == merge_rows(ring, acc, second, scale),
{
    let left = merge_rows(ring, acc, first, scale);
    let right = merge_rows(ring, acc, second, scale);
    assert forall|k: u64|
        #![trigger left.contains_key(k)]
        #![trigger right.contains_key(k)]
        left.contains_key(k) == right.contains_key(k) && (left.contains_key(k) ==> left[k]
            == right[k]) by {
        lemma_merge_rows_pointwise(ring, acc, first, scale, k);
        lemma_merge_rows_pointwise(ring, acc, second, scale, k);
        if has_key(first, k) {
            let i = choose|i: int| 0 <= i < first.len() && (#[trigger] first[i]).0 == k;
            assert(second.contains(first[i]));
            let j = choose|j: int| 0 <= j < second.len() && second[j] == first[i];
            assert(second[j].0 == k);
            assert(second[j].1 == first[i].1);
        } else if has_key(second, k) {
            let j = choose|j: int| 0 <= j < second.len() && (#[trigger] second[j]).0 == k;
            assert(first.contains(second[j]));
            let i = choose|i: int| 0 <= i < first.len() && first[i] == second[j];
            assert(first[i].0 == k);
        }
    }
    assert(left =~= right);
}

/// A merge into an accumulator of canonical nonzero coefficients leaves
/// canonical nonzero coefficients.
pub proof fn lemma_merge_rows_nonzero(
    ring: RingMetadata,
    acc: Map<u64, u64>,
    row: Seq<(u64, u64)>,
    scale: u64,
)
    requires
        ring.wf(),
        nonzero_entries(ring, acc),
    ensures
        nonzero_entries(ring, merge_rows(ring, acc, row, scale)),
    decreases row.len(),
{
    if row.len() > 0 {
        lemma_merge_rows_nonzero(ring, acc, row.drop_last(), scale);
    }
}

/// A combination of matrix rows holds canonical nonzero coefficients only.
pub proof fn lemma_combination_nonzero<Matrix: SmOracle>(
    matrix: &Matrix,
    majkeys: Seq<u64>,
    ops: Seq<(u64, u64)>,
    active: Set<u64>,
)
    requires
        matrix.ring_spec().wf(),
    ensures
        nonzero_entries(matrix.ring_spec(), combination(matrix, majkeys, ops, active)),
    decreases ops.len(),
{
    if ops.len() > 0 {
        lemma_combination_nonzero(matrix, majkeys, ops.drop_last(), active);
        lemma_merge_rows_nonzero(
            matrix.ring_spec(),
            combination(matrix, majkeys, ops.drop_last(), active),
            restricted(matrix.row_spec(majkeys[ops.last().0 as int]), active),
            ops.last().1,
        );
    }
}

/// Over a field every dominator is a unit.
///
/// The dominator is the entry in the column `minkey` of the row that is
/// rebuilt for a pivot from its row operation `oprow`. Where the ring is a
/// field and the rebuilt row has such an entry, the entry has an inverse, so
/// no cancellation ends as `NonInvertibleDominator`.
pub proof fn lemma_dominator_invertible<Matrix: SmOracle>(
    matrix: &Matrix,
    majkeys: Seq<u64>,
    active: Set<u64>,
    oprow: Seq<(u64, u64)>,
    minkey: u64,
)
    requires
        matrix.ring_spec().wf(),
        matrix.ring_spec().is_field(),
    ensures
        combination(matrix, majkeys, oprow, active).contains_key(minkey)
            ==> matrix.ring_spec().invertible(
            combination(matrix, majkeys, oprow, active)[minkey] as int,
        ),
        cancellation(matrix, majkeys, active, oprow, minkey)
            != Cancellation::NonInvertibleDominator,
{
    if combination(matrix, majkeys, oprow, active).contains_key(minkey) {
        let ring = matrix.ring_spec();
        let dominator = combination(matrix, majkeys, oprow, active)[minkey];
        lemma_combination_nonzero(matrix, majkeys, oprow, active);
        vstd::arithmetic::div_mod::lemma_small_mod(dominator as nat, ring.modulus as nat);
        assert(ring.residue(dominator as int) != 0);
    }
}

/// The row-operation matrix and the indexing describe the same pivots, and
/// every row operation refers to earlier pivots only.
pub open spec fn consistent(rowoper: &CSM, indexing: &Indexing) -> bool {
    &&& rowoper.wf()
    &&& rowoper.triangular()
    &&& rowoper.pending().len() == 0
    &&& indexing.wf()
    &&& indexing.count() == rowoper.nummaj
}

/// Keeps the entries of a row whose minor key is active.
pub fn restrict_row(row: &Vec<(u64, u64)>, min_to_reduce: &HashSet<u64>) -> (kept: Vec<(u64, u64)>)
    ensures
        kept@ == restricted(row@, min_to_reduce@),
        forall|k: u64| has_key(kept@, k) ==> min_to_reduce@.contains(k) && has_key(row@, k),
{
    let n: usize = row.len();
    let mut kept: Vec<(u64, u64)> = Vec::new();
    let mut i: usize = 0;
    while i < n
        invariant
            n == row@.len(),
            0 <= i <= n,
            kept@ == restricted(row@.take(i as int), min_to_reduce@),
            forall|j: int|
                0 <= j < kept@.len() ==> min_to_reduce@.contains((#[trigger] kept@[j]).0) && has_key(
                    row@,
                    kept@[j].0,
                ),
        decreases n - i,
    {
        let key: u64 = row[i].0;
        let val: u64 = row[i].1;
        proof {
            assert(row@.take(i + 1).drop_last() == row@.take(i as int));
            assert(row@.take(i + 1).last() == row@[i as int]);
            assert(row@[i as int].0 == key);
        }
        if min_to_reduce.contains(&key) {
            kept.push((key, val));
        }
        i = i + 1;
    }
    proof {
        assert(row@.take(n as int) == row@);
    }
    kept
}

/// Fills an emptied sparse accumulator with the entries of a row.
pub fn load_heap_hash(heap: &mut MinHeap, hash: &mut HashMap<u64, u64>, row: &Vec<(u64, u64)>)
    ensures
        final(hash)@ == loaded(row@),
        final(heap)@ == Seq::new(row@.len(), |j: int| row@[j].0),
        covers(final(heap)@, final(hash)@),
        forall|k: u64| #[trigger] final(hash)@.contains_key(k) ==> has_key(row@, k),
        forall|x: u64| #[trigger] final(heap)@.contains(x) ==> has_key(row@, x),
{
    heap.clear();
    hash.clear();
    let n: usize = row.len();
    let mut i: usize = 0;
    while i < n
        invariant
            n == row@.len(),
            0 <= i <= n,
            hash@ == loaded(row@.take(i as int)),
            heap@ == Seq::new(i as nat, |j: int| row@[j].0),
            covers(heap@, hash@),
            forall|k: u64| #[trigger] hash@.contains_key(k) ==> has_key(row@, k),
            forall|x: u64| #[trigger] heap@.contains(x) ==> has_key(row@, x),
        decreases n - i,
    {
        let key: u64 = row[i].0;
        let val: u64 = row[i].1;
        let ghost before_heap = heap@;
        proof {
            assert(row@.take(i + 1).drop_last() == row@.take(i as int));
            assert(row@.take(i + 1).last() == row@[i as int]);
            assert(row@[i as int].0 == key);
        }
        heap.push(key);
        hash.insert(key, val);
        proof {
            assert(heap@ =~= Seq::new((i + 1) as nat, |j: int| row@[j].0));
            assert(heap@[before_heap.len() as int] == key);
            assert forall|x: u64| #[trigger] before_heap.contains(x) implies heap@.contains(x) by {
                let j = choose|j: int| 0 <= j < before_heap.len() && before_heap[j] == x;
                assert(heap@[j] == x);
            }
            assert forall|x: u64| #[trigger] heap@.contains(x) implies x == key
                || before_heap.contains(x) by {
                let j = choose|j: int| 0 <= j < heap@.len() && heap@[j] == x;
                if j < before_heap.len() {
                    assert(before_heap[j] == x);
                }
            }
        }
        i = i + 1;
    }
    proof {
        assert(row@.take(n as int) == row@);
    }
}

/// Builds the linear combination of matrix rows that `ops` describes,
/// restricted to the active columns, in an emptied sparse accumulator.
pub fn reconstruct_row<Matrix: SmOracle>(
    matrix: &Matrix,
    ring: &RingMetadata,
    index_2_majkey: &Vec<u64>,
    ops: &Vec<(u64, u64)>,
    min_to_reduce: &HashSet<u64>,
    heap: &mut MinHeap,
    hash: &mut HashMap<u64, u64>,
)
    requires
        matrix.wf(),
        *ring == matrix.ring_spec(),
        ring.wf(),
        forall|j: int| 0 <= j < ops@.len() ==> (#[trigger] ops@[j]).0 < index_2_majkey@.len(),
    ensures
        final(hash)@ == combination(matrix, index_2_majkey@, ops@, min_to_reduce@),
        final(heap)@ == combination_keys(matrix, index_2_majkey@, ops@, min_to_reduce@),
        covers(final(heap)@, final(hash)@),
        forall|k: u64| #[trigger] final(hash)@.contains_key(k) ==> min_to_reduce@.contains(k),
{
    heap.clear();
    hash.clear();
    let n: usize = ops.len();
    let mut i: usize = 0;
    while i < n
        invariant
            matrix.wf(),
            *ring == matrix.ring_spec(),
            ring.wf(),
            n == ops@.len(),
            0 <= i <= n,
            forall|j: int| 0 <= j < ops@.len() ==> (#[trigger] ops@[j]).0 < index_2_majkey@.len(),
            hash@ == combination(matrix, index_2_majkey@, ops@.take(i as int), min_to_reduce@),
            heap@ == combination_keys(
                matrix,
                index_2_majkey@,
                ops@.take(i as int),
                min_to_reduce@,
            ),
            covers(heap@, hash@),
            forall|k: u64| #[trigger] hash@.contains_key(k) ==> min_to_reduce@.contains(k),
        decreases n - i,
    {
        let majind: u64 = ops[i].0;
        let snzval: u64 = ops[i].1;
        proof {
            assert(ops@.take(i + 1).drop_last() == ops@.take(i as int));
            assert(ops@.take(i + 1).last() == ops@[i as int]);
            assert(ops@[i as int].0 == majind);
        }
        let count: usize = index_2_majkey.len();
        assert(majind < count);
        let ghost before = hash@;
        let ghost queued = heap@;
        let majkey: u64 = index_2_majkey[majind as usize];
        let full: Vec<(u64, u64)> = matrix.maj_itr(majkey);
        let mut row: Vec<(u64, u64)> = restrict_row(&full, min_to_reduce);
        let ghost kept = row@;
        update_heap_hash(ring, heap, hash, &mut row, snzval);
        proof {
            assert(majkey == index_2_majkey@[majind as int]);
            assert(kept == restricted(matrix.row_spec(majkey), min_to_reduce@));
            assert(hash@ == merge_rows(*ring, before, kept, snzval));
            assert(heap@ == queued + pushed_keys(*ring, before, kept, snzval));
            assert(combination_keys(matrix, index_2_majkey@, ops@.take(i + 1), min_to_reduce@)
                == combination_keys(
                matrix,
                index_2_majkey@,
                ops@.take(i + 1).drop_last(),
                min_to_reduce@,
            ) + pushed_keys(
                matrix.ring_spec(),
                combination(matrix, index_2_majkey@, ops@.take(i + 1).drop_last(), min_to_reduce@),
                restricted(
                    matrix.row_spec(index_2_majkey@[ops@.take(i + 1).last().0 as int]),
                    min_to_reduce@,
                ),
                ops@.take(i + 1).last().1,
            ));
            assert(combination(matrix, index_2_majkey@, ops@.take(i + 1), min_to_reduce@)
                == merge_rows(
                matrix.ring_spec(),
                combination(matrix, index_2_majkey@, ops@.take(i + 1).drop_last(), min_to_reduce@),
                restricted(
                    matrix.row_spec(index_2_majkey@[ops@.take(i + 1).last().0 as int]),
                    min_to_reduce@,
                ),
                ops@.take(i + 1).last().1,
            ));
        }
        i = i + 1;
    }
    proof {
        assert(ops@.take(n as int) == ops@);
    }
}

/// Cancels the leading entry of the row under reduction against the pivot
/// `index`, which sits in the same column `minkey`.
///
/// The row of that pivot is rebuilt from the matrix. If its coefficient at
/// `minkey`, the dominator, is a unit and no entry of the rebuilt row lies
/// before `minkey`, the multiple of the rebuilt row that cancels
/// `leading_entry` is added to the row under reduction, and the same
/// multiple of the pivot's row operation to the row operation under
/// construction. Otherwise nothing changes. The result tells which of these
/// happened.
pub fn cancel_leading<Matrix: SmOracle>(
    matrix: &Matrix,
    ring: &RingMetadata,
    rowoper: &CSM,
    indexing: &Indexing,
    min_to_reduce: &HashSet<u64>,
    index: usize,
    minkey: u64,
    leading_entry: u64,
    heap_reduced: &mut MinHeap,
    hash_reduced: &mut HashMap<u64, u64>,
    heap_rowoper: &mut MinHeap,
    hash_rowoper: &mut HashMap<u64, u64>,
) -> (outcome: Cancellation)
    requires
        matrix.wf(),
        *ring == matrix.ring_spec(),
        ring.wf(),
        consistent(rowoper, indexing),
        index < rowoper.nummaj,
        covers(old(heap_reduced)@, old(hash_reduced)@),
        covers(old(heap_rowoper)@, old(hash_rowoper)@),
    ensures
        outcome == cancellation(
            matrix,
            indexing.index_2_majkey@,
            min_to_reduce@,
            rowoper.row(index as int),
            minkey,
        ),
        matrix.ring_spec().is_field() ==> outcome != Cancellation::NonInvertibleDominator,
        (final(heap_reduced)@, final(heap_rowoper)@) == cancelled_queues(
            matrix,
            indexing.index_2_majkey@,
            min_to_reduce@,
            rowoper.row(index as int),
            minkey,
            leading_entry,
            old(hash_reduced)@,
            old(hash_rowoper)@,
            old(heap_reduced)@,
            old(heap_rowoper)@,
        ),
        (final(hash_reduced)@, final(hash_rowoper)@) == cancelled(
            matrix,
            indexing.index_2_majkey@,
            min_to_reduce@,
            rowoper.row(index as int),
            minkey,
            leading_entry,
            old(hash_reduced)@,
            old(hash_rowoper)@,
        ),
        covers(final(heap_reduced)@, final(hash_reduced)@),
        covers(final(heap_rowoper)@, final(hash_rowoper)@),
        forall|k: u64| #[trigger]
            final(hash_reduced)@.contains_key(k) ==> old(hash_reduced)@.contains_key(k) || (k
                > minkey && min_to_reduce@.contains(k)),
        forall|k: u64| #[trigger]
            final(hash_rowoper)@.contains_key(k) ==> old(hash_rowoper)@.contains_key(k) || k
                <= index,
{
    let mut ops: Vec<(u64, u64)> = rowoper.maj_hash(index);
    proof {
        assert(ops@ == rowoper.row(index as int));
        assert forall|j: int| 0 <= j < ops@.len() implies (#[trigger] ops@[j]).0 <= index by {
            if j >= 1 {
                assert(rowoper.row(index as int)[j].0 < index);
            }
        }
    }
    let mut heap_row = MinHeap::new();
    let mut hash_row: HashMap<u64, u64> = HashMap::new();
    reconstruct_row(
        matrix,
        ring,
        &indexing.index_2_majkey,
        &ops,
        min_to_reduce,
        &mut heap_row,
        &mut hash_row,
    );
    let ghost rebuilt = hash_row@;
    proof {
        assert(rebuilt == combination(
            matrix,
            indexing.index_2_majkey@,
            rowoper.row(index as int),
            min_to_reduce@,
        ));
    }
    proof {
        if matrix.ring_spec().is_field() {
            lemma_dominator_invertible(
                matrix,
                indexing.index_2_majkey@,
                min_to_reduce@,
                rowoper.row(index as int),
                minkey,
            );
        }
    }
    match hash_row.remove(&minkey) {
        None => Cancellation::NoDominator,
        Some(dominator) => {
            match ring.inverse(dominator) {
                None => Cancellation::NonInvertibleDominator,
                Some(inverse) => {
                    let scale: u64 = ring.product(ring.negate(leading_entry), inverse);
                    let mut row_reduced: Vec<(u64, u64)> = drain_sorted(&mut heap_row, &mut hash_row);
                    let ghost tail = rebuilt.remove(minkey);
                    proof {
                        assert(hash_row@ == Map::<u64, u64>::empty());
                    }
                    if row_reduced.len() == 0 || row_reduced[0].0 > minkey {
                        proof {
                            assert forall|k: u64| #[trigger] rebuilt.contains_key(k) implies k
                                >= minkey by {
                                if k != minkey {
                                    assert(tail.contains_key(k));
                                    assert(has_key(row_reduced@, k));
                                    let j = choose|j: int|
                                        0 <= j < row_reduced@.len() && (#[trigger] row_reduced@[j]).0
                                            == k;
                                    if j > 0 {
                                        assert(row_reduced@[0].0 < row_reduced@[j].0);
                                    }
                                }
                            }
                            assert forall|k: u64| has_key(row_reduced@, k) implies k > minkey
                                && min_to_reduce@.contains(k) by {
                                let j = choose|j: int|
                                    0 <= j < row_reduced@.len() && (#[trigger] row_reduced@[j]).0
                                        == k;
                                assert(rebuilt.contains_key(row_reduced@[j].0));
                                if j > 0 {
                                    assert(row_reduced@[0].0 < row_reduced@[j].0);
                                }
                            }
                            assert forall|k: u64| has_key(ops@, k) implies k <= index by {
                                let j = choose|j: int|
                                    0 <= j < ops@.len() && (#[trigger] ops@[j]).0 == k;
                            }
                        }
                        update_heap_hash(ring, heap_reduced, hash_reduced, &mut row_reduced, scale);
                        update_heap_hash(ring, heap_rowoper, hash_rowoper, &mut ops, scale);
                        Cancellation::Cancelled
                    } else {
                        proof {
                            assert(tail.contains_key(row_reduced@[0].0));
                            assert(rebuilt.contains_key(row_reduced@[0].0));
                        }
                        Cancellation::EntryBeforePivot
                    }
                },
            }
        },
    }
}

/// Reduces the row `majkey` of the matrix against the pivots found so far.
///
/// The row is restricted to the active columns. Its smallest live entry is
/// taken out again and again: one in the column of an earlier pivot is
/// cancelled against that pivot; the first one in a fresh column becomes a
/// new pivot, whose minor key is returned. The result is `None` when the row
/// runs empty first.
pub fn reduce_major<Matrix: SmOracle>(
    matrix: &Matrix,
    ring: &RingMetadata,
    majkey: u64,
    min_to_reduce: &HashSet<u64>,
    rowoper: &mut CSM,
    indexing: &mut Indexing,
) -> (pivot: Option<u64>)
    requires
        matrix.wf(),
        *ring == matrix.ring_spec(),
        ring.wf(),
        consistent(old(rowoper), old(indexing)),
    ensures
        consistent(final(rowoper), final(indexing)),
        final(rowoper).ring == old(rowoper).ring,
        final(rowoper).majdim == old(rowoper).majdim,
        final(indexing).ordered_minind@ == old(indexing).ordered_minind@,
        forall|i: int|
            0 <= i < old(rowoper).nummaj ==> #[trigger] final(rowoper).row(i) == old(rowoper).row(i),
        pivot.is_some() == reduction(
            matrix,
            old(rowoper)@,
            old(indexing).index_2_majkey@,
            old(indexing).index_2_minkey@,
            min_to_reduce@,
            majkey,
        ).is_some(),
        match pivot {
            Some(minkey) => {
                &&& reduction(
                    matrix,
                    old(rowoper)@,
                    old(indexing).index_2_majkey@,
                    old(indexing).index_2_minkey@,
                    min_to_reduce@,
                    majkey,
                ).unwrap().0 == minkey
                &&& final(rowoper).row(old(rowoper).nummaj as int) == stored_operation(
                    old(rowoper).nummaj as int,
                    reduction(
                        matrix,
                        old(rowoper)@,
                        old(indexing).index_2_majkey@,
                        old(indexing).index_2_minkey@,
                        min_to_reduce@,
                        majkey,
                    ).unwrap().1,
                )
                &&& min_to_reduce@.contains(minkey)
                &&& !old(indexing).minkey_2_index@.contains_key(minkey)
                &&& final(rowoper).nummaj == old(rowoper).nummaj + 1
                &&& final(indexing).index_2_majkey@ == old(indexing).index_2_majkey@.push(majkey)
                &&& final(indexing).index_2_minkey@ == old(indexing).index_2_minkey@.push(minkey)
                &&& final(indexing).minkey_2_index@ == old(indexing).minkey_2_index@.insert(
                    minkey,
                    old(rowoper).nummaj,
                )
                &&& final(indexing).majkey_2_index@ == old(indexing).majkey_2_index@.insert(
                    majkey,
                    old(rowoper).nummaj,
                )
                &&& old(indexing).major_exact() && !old(indexing).majkey_2_index@.contains_key(
                    majkey,
                ) ==> final(indexing).major_exact()
            },
            None => {
                &&& final(rowoper).nummaj == old(rowoper).nummaj
                &&& final(indexing).index_2_majkey@ == old(indexing).index_2_majkey@
                &&& final(indexing).index_2_minkey@ == old(indexing).index_2_minkey@
                &&& final(indexing).minkey_2_index@ == old(indexing).minkey_2_index@
                &&& final(indexing).majkey_2_index@ == old(indexing).majkey_2_index@
            },
        },
{
    let mut heap_reduced = MinHeap::new();
    let mut heap_rowoper = MinHeap::new();
    let mut hash_reduced: HashMap<u64, u64> = HashMap::new();
    let mut hash_rowoper: HashMap<u64, u64> = HashMap::new();
    let one: u64 = ring.identity_multiplicative();

    let full: Vec<(u64, u64)> = matrix.maj_itr(majkey);
    let row: Vec<(u64, u64)> = restrict_row(&full, min_to_reduce);
    load_heap_hash(&mut heap_reduced, &mut hash_reduced, &row);

    let ghost mut floor: int = -1;
    let ghost rows = rowoper@;
    let ghost majkeys = indexing.index_2_majkey@;
    let ghost minkeys = indexing.index_2_minkey@;
    let ghost outcome = reduction(matrix, rows, majkeys, minkeys, min_to_reduce@, majkey);
    loop
        invariant
            matrix.wf(),
            *ring == matrix.ring_spec(),
            ring.wf(),
            one == 1,
            rows == old(rowoper)@,
            majkeys == old(indexing).index_2_majkey@,
            minkeys == old(indexing).index_2_minkey@,
            outcome == reduction(matrix, rows, majkeys, minkeys, min_to_reduce@, majkey),
            outcome == elimination(
                matrix,
                rows,
                majkeys,
                minkeys,
                min_to_reduce@,
                hash_reduced@,
                hash_rowoper@,
                floor,
            ),
            consistent(rowoper, indexing),
            *rowoper == *old(rowoper),
            *indexing == *old(indexing),
            covers(heap_reduced@, hash_reduced@),
            covers(heap_rowoper@, hash_rowoper@),
            -1 <= floor <= u64::MAX,
            forall|k: u64| #[trigger]
                hash_reduced@.contains_key(k) ==> k > floor && min_to_reduce@.contains(k),
            forall|k: u64| #[trigger] hash_rowoper@.contains_key(k) ==> k < rowoper.nummaj,
        decreases u64::MAX - floor,
    {
        let ghost before = hash_reduced@;
        let ghost built = hash_rowoper@;
        match pop_leading(&mut heap_reduced, &mut hash_reduced) {
            None => {
                proof {
                    assert forall|k: u64| !is_least_above(before, floor, k) by {}
                }
                return None;
            },
            Some((minkey, leading_entry)) => {
                proof {
                    assert(is_least_above(before, floor, minkey));
                    lemma_least_above_unique(before, floor, minkey);
                    if minkeys.contains(minkey) {
                        let i = minkeys.index_of(minkey);
                        assert(0 <= i < minkeys.len() && minkeys[i] == minkey);
                        assert(indexing.minkey_2_index@.contains_key(indexing.index_2_minkey@[i]));
                    }
                    if indexing.minkey_2_index@.contains_key(minkey) {
                        let at = indexing.minkey_2_index@[minkey] as int;
                        assert(minkeys[at] == minkey);
                        assert(minkeys.contains(minkey));
                        let i = minkeys.index_of(minkey);
                        assert(0 <= i < minkeys.len() && minkeys[i] == minkey);
                        assert(indexing.minkey_2_index@[indexing.index_2_minkey@[i]] == i);
                        assert(rows[i] == rowoper.row(at));
                    }
                    assert(outcome == elimination(
                        matrix,
                        rows,
                        majkeys,
                        minkeys,
                        min_to_reduce@,
                        before,
                        built,
                        floor,
                    ));
                    floor = minkey as int;
                }
                if !ring.is_0(leading_entry) {
                    match indexing.index_of_minkey(minkey) {
                        Some(index) => {
                            let _ = cancel_leading(
                                matrix,
                                ring,
                                rowoper,
                                indexing,
                                min_to_reduce,
                                index,
                                minkey,
                                leading_entry,
                                &mut heap_reduced,
                                &mut hash_reduced,
                                &mut heap_rowoper,
                                &mut hash_rowoper,
                            );
                        },
                        None => {
                            let index: usize = indexing.insert(majkey, minkey);
                            rowoper.push_snzval(index as u64, one);
                            let ghost collected = hash_rowoper@;
                            let mut entries: Vec<(u64, u64)> = drain_sorted(
                                &mut heap_rowoper,
                                &mut hash_rowoper,
                            );
                            let ghost listed = entries@;
                            let ghost opened = *rowoper;
                            rowoper.append_maj(&mut entries);
                            proof {
                                assert(outcome == Some((minkey, collected)));
                                assert(listed == listing(collected, -1));
                                assert(old(rowoper).pending() =~= Seq::<(u64, u64)>::empty());
                                assert(opened.pending() =~= seq![(index as u64, 1u64)]);
                                let fresh = rowoper.row(index as int);
                                assert(fresh =~= seq![(index as u64, 1u64)] + listed);
                                assert(fresh == stored_operation(index as int, collected));
                                assert(fresh[0] == (index as u64, 1u64));
                                assert forall|j: int| 1 <= j < fresh.len() implies (
                                #[trigger] fresh[j]).0 < index by {
                                    assert(fresh[j] == listed[j - 1]);
                                    assert(collected.contains_key(listed[j - 1].0));
                                }
                                assert forall|i: int| 0 <= i < rowoper.nummaj implies {
                                    &&& (#[trigger] rowoper.row(i)).len() >= 1
                                    &&& rowoper.row(i)[0] == (i as u64, 1u64)
                                    &&& forall|j: int|
                                        1 <= j < rowoper.row(i).len() ==> (
                                        #[trigger] rowoper.row(i)[j]).0 < i
                                } by {
                                    if i < index {
                                        assert(rowoper.row(i) == old(rowoper).row(i));
                                    }
                                }
                            }
                            return Some(minkey);
                        },
                    }
                }
            },
        }
    }
}

/// Factors a sparse matrix oracle along a list of rows and a set of columns.
///
/// The major keys of `maj_to_reduce` are taken from its end, one after the
/// other, and each row is reduced against the pivots found before it; only
/// the columns in `min_to_reduce` are looked at. A row that does not reduce
/// to zero gives a new pivot.
///
/// Returns the row operations in compressed form, one row for each pivot,
/// and the indexing of the pivots: their major and minor keys in the order
/// of discovery, and the order of the pivots by minor key.
pub fn decomp_row_use_pairs<Matrix: SmOracle>(
    matrix: &Matrix,
    maj_to_reduce: &mut Vec<u64>,
    min_to_reduce: &HashSet<u64>,
) -> (r: (CSM, Indexing))
    requires
        matrix.wf(),
    ensures
        final(maj_to_reduce)@.len() == 0,
        (r.0@, r.1.index_2_majkey@, r.1.index_2_minkey@) == factored(
            matrix,
            old(maj_to_reduce)@,
            old(maj_to_reduce)@.len() as int,
            min_to_reduce@,
        ),
        consistent(&r.0, &r.1),
        r.0.ring == matrix.ring_spec(),
        r.0.majdim == MajorDimension::Row,
        r.1.minor_ordered(),
        r.1.count() <= old(maj_to_reduce)@.len(),
        forall|i: int|
            0 <= i < r.1.count() ==> min_to_reduce@.contains(#[trigger] r.1.index_2_minkey@[i]),
        forall|i: int|
            0 <= i < r.1.count() ==> old(maj_to_reduce)@.contains(#[trigger] r.1.index_2_majkey@[i]),
        old(maj_to_reduce)@.no_duplicates() ==> r.1.major_exact(),
        min_to_reduce@ == Set::<u64>::empty() ==> r.0.nummaj == 0 && r.1.count() == 0,
{
    let length: usize = maj_to_reduce.len();
    let spare: usize = length / 5;
    let capacity: usize = if length <= usize::MAX - spare {
        length + spare
    } else {
        length
    };
    let ring: RingMetadata = matrix.ring();
    let mut rowoper = CSM::with_capacity(capacity, MajorDimension::Row, ring);
    let mut indexing = Indexing::with_capacity(capacity);
    proof {
        assert(rowoper.pending() =~= Seq::<(u64, u64)>::empty());
    }

    while maj_to_reduce.len() > 0
        invariant
            matrix.wf(),
            ring == matrix.ring_spec(),
            ring.wf(),
            consistent(&rowoper, &indexing),
            rowoper.ring == ring,
            rowoper.majdim == MajorDimension::Row,
            (rowoper@, indexing.index_2_majkey@, indexing.index_2_minkey@) == factored(
                matrix,
                old(maj_to_reduce)@,
                old(maj_to_reduce)@.len() - maj_to_reduce@.len(),
                min_to_reduce@,
            ),
            indexing.ordered_minind@.len() == 0,
            maj_to_reduce@ == old(maj_to_reduce)@.take(maj_to_reduce@.len() as int),
            maj_to_reduce@.len() <= old(maj_to_reduce)@.len(),
            indexing.count() + maj_to_reduce@.len() <= old(maj_to_reduce)@.len(),
            forall|i: int|
                0 <= i < indexing.count() ==> min_to_reduce@.contains(
                    #[trigger] indexing.index_2_minkey@[i],
                ),
            forall|i: int|
                0 <= i < indexing.count() ==> exists|p: int|
                    maj_to_reduce@.len() <= p < old(maj_to_reduce)@.len() && old(maj_to_reduce)@[p]
                        == #[trigger] indexing.index_2_majkey@[i],
            old(maj_to_reduce)@.no_duplicates() ==> indexing.major_exact(),
        decreases maj_to_reduce@.len(),
    {
        let ghost before = maj_to_reduce@;
        let ghost pivots = indexing;
        let ghost stored = rowoper;
        let popped: Option<u64> = maj_to_reduce.pop();
        let majkey: u64 = popped.unwrap();
        proof {
            let here = before.len() - 1;
            assert(majkey == old(maj_to_reduce)@[here]);
            assert(maj_to_reduce@ =~= old(maj_to_reduce)@.take(maj_to_reduce@.len() as int));
            if old(maj_to_reduce)@.no_duplicates() && pivots.majkey_2_index@.contains_key(majkey) {
                let i = pivots.majkey_2_index@[majkey] as int;
                assert(pivots.index_2_majkey@[i] == majkey);
                let p = choose|p: int|
                    before.len() <= p < old(maj_to_reduce)@.len() && old(maj_to_reduce)@[p]
                        == pivots.index_2_majkey@[i];
                assert(false);
            }
        }
        let pivot: Option<u64> = reduce_major(
            matrix,
            &ring,
            majkey,
            min_to_reduce,
            &mut rowoper,
            &mut indexing,
        );
        proof {
            let done = old(maj_to_reduce)@.len() - maj_to_reduce@.len();
            assert(old(maj_to_reduce)@[old(maj_to_reduce)@.len() - done] == majkey);
            if pivot.is_some() {
                assert(rowoper@ =~= stored@.push(rowoper.row(stored.nummaj as int)));
            } else {
                assert(rowoper@ =~= stored@);
            }
            assert((rowoper@, indexing.index_2_majkey@, indexing.index_2_minkey@) == factored(
                matrix,
                old(maj_to_reduce)@,
                done,
                min_to_reduce@,
            ));
            assert forall|i: int| 0 <= i < indexing.count() implies exists|p: int|
                maj_to_reduce@.len() <= p < old(maj_to_reduce)@.len() && old(maj_to_reduce)@[p]
                    == #[trigger] indexing.index_2_majkey@[i] by {
                if i < pivots.count() {
                    assert(indexing.index_2_majkey@[i] == pivots.index_2_majkey@[i]);
                    let p = choose|p: int|
                        before.len() <= p < old(maj_to_reduce)@.len() && old(maj_to_reduce)@[p]
                            == pivots.index_2_majkey@[i];
                    assert(maj_to_reduce@.len() <= p);
                } else {
                    assert(old(maj_to_reduce)@[before.len() - 1] == indexing.index_2_majkey@[i]);
                }
            }
            assert forall|i: int| 0 <= i < indexing.count() implies min_to_reduce@.contains(
                #[trigger] indexing.index_2_minkey@[i],
            ) by {
                if i < pivots.count() {
                    assert(indexing.index_2_minkey@[i] == pivots.index_2_minkey@[i]);
                }
            }
        }
    }

    indexing.order_minkeys();
    let ghost ordered = indexing;
    let ghost closed = rowoper;
    rowoper.shrink_to_fit();
    indexing.shrink_to_fit();
    proof {
        assert(rowoper.pending() =~= closed.pending());
        assert forall|i: int| 0 <= i < rowoper.nummaj implies #[trigger] rowoper.row(i)
            == closed.row(i) by {
            assert(rowoper.row(i) =~= closed.row(i));
        }
        assert(rowoper.triangular());
        assert(rowoper@ =~= closed@);
        if indexing.count() > 0 {
            assert(min_to_reduce@.contains(indexing.index_2_minkey@[0]));
        }
        if old(maj_to_reduce)@.no_duplicates() {
            assert(ordered.major_exact());
            assert(indexing.major_exact());
        }
    }
    (rowoper, indexing)
}

} // verus!
