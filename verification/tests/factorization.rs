use std::collections::HashSet;

use exhact::chx::Indexing;
use exhact::csm::CSM;
use std::collections::HashMap;

use exhact::decomp_row_use_pairs::{cancel_leading, decomp_row_use_pairs, Cancellation};
use exhact::heap::MinHeap;
use exhact::matrix::{RowTable, SmOracle};
use exhact::ring::RingMetadata;

const A: u64 = 10;
const B: u64 = 20;
const C: u64 = 30;
const X: u64 = 1;
const Y: u64 = 2;
const Z: u64 = 3;

fn table(modulus: u64, rows: Vec<(u64, Vec<(u64, u64)>)>) -> RowTable {
    let mut t = RowTable::new(RingMetadata::new(modulus).unwrap());
    for (key, row) in rows {
        t.push_row(key, row);
    }
    t
}

fn active(keys: &[u64]) -> HashSet<u64> {
    keys.iter().copied().collect()
}

fn check_shape(rowoper: &CSM, indexing: &Indexing) {
    let n = rowoper.nummaj;
    assert_eq!(indexing.index_2_majkey.len(), n);
    assert_eq!(indexing.index_2_minkey.len(), n);
    assert_eq!(indexing.minkey_2_index.len(), n);
    assert_eq!(indexing.ordered_minind.len(), n);
    for i in 0..n {
        let row = rowoper.maj_hash(i);
        assert_eq!(row[0], (i as u64, 1));
        for entry in &row[1..] {
            assert!(entry.0 < i as u64);
        }
        assert_eq!(indexing.minkey_2_index[&indexing.index_2_minkey[i]], i);
        assert_eq!(indexing.index_of_minkey(indexing.index_2_minkey[i]), Some(i));
    }
    for w in indexing.ordered_minind.windows(2) {
        assert!(indexing.index_2_minkey[w[0]] < indexing.index_2_minkey[w[1]]);
    }
}

#[test]
fn two_by_two_modulo_two() {
    let t = table(2, vec![(A, vec![(X, 1), (Y, 1)]), (B, vec![(X, 1)])]);
    let mut worklist = vec![A, B];
    let (rowoper, indexing) = decomp_row_use_pairs(&t, &mut worklist, &active(&[X, Y]));
    assert!(worklist.is_empty());
    assert_eq!(rowoper.nummaj, 2);
    assert_eq!(indexing.index_2_majkey, vec![B, A]);
    assert_eq!(indexing.index_2_minkey, vec![X, Y]);
    assert_eq!(indexing.minkey_2_index[&X], 0);
    assert_eq!(indexing.minkey_2_index[&Y], 1);
    assert_eq!(indexing.majkey_2_index[&B], 0);
    assert_eq!(indexing.majkey_2_index[&A], 1);
    assert_eq!(indexing.ordered_minind, vec![0, 1]);
    assert_eq!(rowoper.maj_hash(0), vec![(0, 1)]);
    assert_eq!(rowoper.maj_hash(1), vec![(1, 1), (0, 1)]);
    check_shape(&rowoper, &indexing);
}

#[test]
fn empty_active_set_gives_nothing() {
    let t = table(2, vec![(A, vec![(X, 1), (Y, 1)]), (B, vec![(X, 1)])]);
    let mut worklist = vec![A, B, A, C];
    let (rowoper, indexing) = decomp_row_use_pairs(&t, &mut worklist, &HashSet::new());
    assert!(worklist.is_empty());
    assert_eq!(rowoper.nummaj, 0);
    assert_eq!(rowoper.majptr, vec![0]);
    assert!(rowoper.minind.is_empty());
    assert!(rowoper.snzval.is_empty());
    assert!(indexing.index_2_majkey.is_empty());
    assert!(indexing.index_2_minkey.is_empty());
    assert!(indexing.minkey_2_index.is_empty());
    assert!(indexing.majkey_2_index.is_empty());
    assert!(indexing.ordered_minind.is_empty());
}

#[test]
fn empty_worklist_gives_nothing() {
    let t = table(3, vec![(A, vec![(X, 1)])]);
    let mut worklist: Vec<u64> = Vec::new();
    let (rowoper, indexing) = decomp_row_use_pairs(&t, &mut worklist, &active(&[X]));
    assert_eq!(rowoper.nummaj, 0);
    assert_eq!(indexing.index_2_minkey.len(), 0);
}

#[test]
fn columns_outside_the_active_set_are_ignored() {
    let t = table(5, vec![(A, vec![(X, 1), (Y, 2)]), (B, vec![(X, 3), (Z, 1)])]);
    let mut worklist = vec![A, B];
    let (rowoper, indexing) = decomp_row_use_pairs(&t, &mut worklist, &active(&[Y, Z]));
    assert_eq!(indexing.index_2_majkey, vec![B, A]);
    assert_eq!(indexing.index_2_minkey, vec![Z, Y]);
    assert_eq!(indexing.ordered_minind, vec![1, 0]);
    assert_eq!(rowoper.maj_hash(0), vec![(0, 1)]);
    assert_eq!(rowoper.maj_hash(1), vec![(1, 1)]);
    check_shape(&rowoper, &indexing);
}

#[test]
fn elimination_modulo_five() {
    // C = {x:2, y:1}, B = {x:1, y:1, z:1}, A = {x:1, z:4}
    let t = table(
        5,
        vec![
            (A, vec![(X, 1), (Z, 4)]),
            (B, vec![(X, 1), (Y, 1), (Z, 1)]),
            (C, vec![(X, 2), (Y, 1)]),
        ],
    );
    let mut worklist = vec![A, B, C];
    let (rowoper, indexing) = decomp_row_use_pairs(&t, &mut worklist, &active(&[X, Y, Z]));
    // C pivots on x. B - 3*C = {y: 1 - 3, z: 1} = {y:3, z:1} pivots on y.
    // A - 3*C = {y: 2, z: 4}; then + s*(B + 2*C) with 2 + 3 s = 0, s = 1:
    // {z: 4 + 1} = {} and A reduces to zero.
    assert_eq!(indexing.index_2_majkey, vec![C, B]);
    assert_eq!(indexing.index_2_minkey, vec![X, Y]);
    assert_eq!(rowoper.nummaj, 2);
    assert_eq!(rowoper.maj_hash(0), vec![(0, 1)]);
    assert_eq!(rowoper.maj_hash(1), vec![(1, 1), (0, 2)]);
    assert_eq!(indexing.ordered_minind, vec![0, 1]);
    check_shape(&rowoper, &indexing);
}

#[test]
fn third_row_gets_a_pivot_modulo_seven() {
    let t = table(
        7,
        vec![
            (A, vec![(Z, 1), (Y, 1), (X, 1)]),
            (B, vec![(Y, 3), (X, 1)]),
            (C, vec![(X, 2)]),
        ],
    );
    let mut worklist = vec![A, B, C];
    let (rowoper, indexing) = decomp_row_use_pairs(&t, &mut worklist, &active(&[X, Y, Z]));
    // C pivots on x. B + 3*C = {y:3} pivots on y, row operation {0:3}.
    // A + 3*C = {y:1, z:1}; then + 2*(B + 3*C) = {z:1}: row operation
    // {0: 3 + 6, 1: 2} = {0:2, 1:2}.
    assert_eq!(indexing.index_2_majkey, vec![C, B, A]);
    assert_eq!(indexing.index_2_minkey, vec![X, Y, Z]);
    assert_eq!(rowoper.maj_hash(0), vec![(0, 1)]);
    assert_eq!(rowoper.maj_hash(1), vec![(1, 1), (0, 3)]);
    assert_eq!(rowoper.maj_hash(2), vec![(2, 1), (0, 2), (1, 2)]);
    assert_eq!(indexing.ordered_minind, vec![0, 1, 2]);
    check_shape(&rowoper, &indexing);
}

#[test]
fn dominator_without_inverse_is_dropped() {
    let t = table(4, vec![(A, vec![(X, 1), (Y, 1)]), (B, vec![(X, 2)])]);
    let mut worklist = vec![A, B];
    let (rowoper, indexing) = decomp_row_use_pairs(&t, &mut worklist, &active(&[X, Y]));
    assert_eq!(indexing.index_2_majkey, vec![B, A]);
    assert_eq!(indexing.index_2_minkey, vec![X, Y]);
    assert_eq!(rowoper.maj_hash(0), vec![(0, 1)]);
    assert_eq!(rowoper.maj_hash(1), vec![(1, 1)]);
    check_shape(&rowoper, &indexing);
}

#[test]
fn repeated_major_key_reduces_to_zero() {
    let t = table(3, vec![(A, vec![(X, 2), (Y, 1)])]);
    let mut worklist = vec![A, A];
    let (rowoper, indexing) = decomp_row_use_pairs(&t, &mut worklist, &active(&[X, Y]));
    assert_eq!(rowoper.nummaj, 1);
    assert_eq!(indexing.index_2_majkey, vec![A]);
    assert_eq!(indexing.index_2_minkey, vec![X]);
    check_shape(&rowoper, &indexing);
}

#[test]
fn repeated_major_key_may_pivot_twice_without_inverses() {
    // modulo 4 the entry 2 has no inverse, so the second pass over the row
    // cannot cancel against the first pivot and finds a second one
    let t = table(4, vec![(A, vec![(X, 2), (Y, 1)])]);
    let mut worklist = vec![A, A];
    let (rowoper, indexing) = decomp_row_use_pairs(&t, &mut worklist, &active(&[X, Y]));
    assert_eq!(indexing.index_2_majkey, vec![A, A]);
    assert_eq!(indexing.index_2_minkey, vec![X, Y]);
    assert_eq!(indexing.majkey_2_index[&A], 1);
    assert_eq!(rowoper.maj_hash(1), vec![(1, 1)]);
    check_shape(&rowoper, &indexing);
}

#[test]
fn worklist_is_taken_from_its_end() {
    let t = table(3, vec![(A, vec![(X, 1)]), (B, vec![(X, 1)]), (C, vec![(X, 2)])]);
    let mut worklist = vec![A, B, C];
    let (rowoper, indexing) = decomp_row_use_pairs(&t, &mut worklist, &active(&[X]));
    assert!(worklist.is_empty());
    assert_eq!(rowoper.nummaj, 1);
    assert_eq!(indexing.index_2_majkey, vec![C]);
    assert!(matches!(rowoper.majdim, exhact::matrix::MajorDimension::Row));
    assert_eq!(rowoper.ring.modulus, 3);
}

#[test]
fn unknown_major_key_has_the_empty_row() {
    let t = table(3, vec![(A, vec![(X, 2)])]);
    assert_eq!(t.maj_itr(B), Vec::new());
    assert_eq!(t.maj_itr(A), vec![(X, 2)]);
    assert_eq!(t.ring().modulus, 3);
    let mut worklist = vec![B];
    let (rowoper, _) = decomp_row_use_pairs(&t, &mut worklist, &active(&[X]));
    assert_eq!(rowoper.nummaj, 0);
}

#[test]
fn row_order_of_the_oracle_does_not_change_the_pivots() {
    let first = table(
        7,
        vec![(A, vec![(Z, 1), (Y, 1), (X, 1)]), (B, vec![(Y, 3), (X, 1)]), (C, vec![(X, 2)])],
    );
    let second = table(
        7,
        vec![(C, vec![(X, 2)]), (B, vec![(X, 1), (Y, 3)]), (A, vec![(X, 1), (Z, 1), (Y, 1)])],
    );
    let set = active(&[X, Y, Z]);
    let (op1, ix1) = decomp_row_use_pairs(&first, &mut vec![A, B, C], &set);
    let (op2, ix2) = decomp_row_use_pairs(&second, &mut vec![A, B, C], &set);
    assert_eq!(ix1.index_2_majkey, ix2.index_2_majkey);
    assert_eq!(ix1.index_2_minkey, ix2.index_2_minkey);
    assert_eq!(ix1.ordered_minind, ix2.ordered_minind);
    for i in 0..3 {
        assert_eq!(op1.maj_hash(i), op2.maj_hash(i));
    }
}

#[test]
fn every_dominator_has_an_inverse_modulo_a_prime() {
    for m in [2u64, 3, 5, 7, 11, 13] {
        let ring = RingMetadata::new(m).unwrap();
        for v in 1..m {
            let w = ring.inverse(v).unwrap();
            assert_eq!(ring.product(v, w), 1);
        }
        assert_eq!(ring.inverse(0), None);
        assert_eq!(ring.inverse(m), None);
    }
}

fn one_pivot(modulus: u64, row: Vec<(u64, u64)>) -> (RowTable, CSM, Indexing, HashSet<u64>) {
    let t = table(modulus, vec![(B, row)]);
    let set = active(&[X, Y, Z]);
    let (rowoper, indexing) = decomp_row_use_pairs(&t, &mut vec![B], &set);
    assert_eq!(rowoper.nummaj, 1);
    (t, rowoper, indexing, set)
}

fn cancel(
    modulus: u64,
    row: Vec<(u64, u64)>,
    minkey: u64,
    leading: u64,
) -> (Cancellation, Vec<(u64, u64)>, Vec<(u64, u64)>) {
    let (t, rowoper, indexing, set) = one_pivot(modulus, row);
    let ring = t.ring();
    let mut heap_reduced = MinHeap::new();
    let mut hash_reduced: HashMap<u64, u64> = HashMap::new();
    heap_reduced.push(Z);
    hash_reduced.insert(Z, 1);
    let mut heap_rowoper = MinHeap::new();
    let mut hash_rowoper: HashMap<u64, u64> = HashMap::new();
    let outcome = cancel_leading(
        &t,
        &ring,
        &rowoper,
        &indexing,
        &set,
        0,
        minkey,
        leading,
        &mut heap_reduced,
        &mut hash_reduced,
        &mut heap_rowoper,
        &mut hash_rowoper,
    );
    let mut reduced: Vec<(u64, u64)> = hash_reduced.into_iter().collect();
    reduced.sort();
    let mut ops: Vec<(u64, u64)> = hash_rowoper.into_iter().collect();
    ops.sort();
    (outcome, reduced, ops)
}

#[test]
fn cancelling_adds_the_multiple_of_the_pivot_row() {
    // scale = -3 * inverse(2) = -3 * 3 = 1 modulo 5
    let (outcome, reduced, ops) = cancel(5, vec![(X, 2), (Y, 1)], X, 3);
    assert_eq!(outcome, Cancellation::Cancelled);
    assert_eq!(reduced, vec![(Y, 1), (Z, 1)]);
    assert_eq!(ops, vec![(0, 1)]);
    // scale = -1 * inverse(2) = -3 = 2 modulo 5; z: 1 + 2 * 2 = 0
    let (outcome, reduced, ops) = cancel(5, vec![(X, 2), (Z, 2)], X, 1);
    assert_eq!(outcome, Cancellation::Cancelled);
    assert_eq!(reduced, Vec::new());
    assert_eq!(ops, vec![(0, 2)]);
}

#[test]
fn cancelling_without_dominator_changes_nothing() {
    let (outcome, reduced, ops) = cancel(5, vec![(X, 2), (Y, 1)], Z, 3);
    assert_eq!(outcome, Cancellation::NoDominator);
    assert_eq!(reduced, vec![(Z, 1)]);
    assert_eq!(ops, Vec::new());
}

#[test]
fn cancelling_against_a_non_unit_changes_nothing() {
    let (outcome, reduced, ops) = cancel(4, vec![(X, 2), (Y, 1)], X, 1);
    assert_eq!(outcome, Cancellation::NonInvertibleDominator);
    assert_eq!(reduced, vec![(Z, 1)]);
    assert_eq!(ops, Vec::new());
}

#[test]
fn cancelling_behind_an_earlier_entry_changes_nothing() {
    let (outcome, reduced, ops) = cancel(5, vec![(X, 2), (Y, 1)], Y, 3);
    assert_eq!(outcome, Cancellation::EntryBeforePivot);
    assert_eq!(reduced, vec![(Z, 1)]);
    assert_eq!(ops, Vec::new());
}

#[test]
fn no_dominator_lacks_an_inverse_modulo_a_prime() {
    for m in [2u64, 3, 5, 7] {
        for d in 1..m {
            for leading in 1..m {
                let (outcome, _, _) = cancel(m, vec![(X, d), (Y, 1)], X, leading);
                assert_eq!(outcome, Cancellation::Cancelled);
            }
        }
    }
}
