use std::collections::HashMap;
use std::collections::HashSet;

use exhact::chx::Indexing;
use exhact::csm::CSM;
use exhact::decomp_row_use_pairs::{
    drain_sorted, load_heap_hash, pop_leading, restrict_row, update_heap_hash,
};
use exhact::heap::MinHeap;
use exhact::matrix::MajorDimension;
use exhact::ring::RingMetadata;

#[test]
fn ring_needs_two_elements() {
    assert!(RingMetadata::new(0).is_none());
    assert!(RingMetadata::new(1).is_none());
    assert_eq!(RingMetadata::new(2).unwrap().modulus, 2);
}

#[test]
fn ring_arithmetic_is_exact() {
    let ring = RingMetadata::new(7).unwrap();
    assert_eq!(ring.identity_additive(), 0);
    assert_eq!(ring.identity_multiplicative(), 1);
    assert_eq!(ring.simplify(23), 2);
    assert!(ring.is_0(14));
    assert!(!ring.is_0(15));
    assert_eq!(ring.sum(5, 4), 2);
    assert_eq!(ring.product(5, 4), 6);
    assert_eq!(ring.negate(3), 4);
    assert_eq!(ring.negate(0), 0);
    assert_eq!(ring.negate(7), 0);
    assert_eq!(ring.inverse(3), Some(5));
    assert_eq!(ring.inverse(10), Some(5));
    assert_eq!(ring.inverse(14), None);
}

#[test]
fn ring_arithmetic_does_not_overflow() {
    let ring = RingMetadata::new(u64::MAX).unwrap();
    assert_eq!(ring.sum(u64::MAX - 1, u64::MAX - 1), u64::MAX - 2);
    assert_eq!(ring.product(u64::MAX - 1, u64::MAX - 1), 1);
    assert_eq!(ring.negate(1), u64::MAX - 1);
    assert_eq!(ring.simplify(u64::MAX), 0);
}

#[test]
fn composite_modulus_has_elements_without_inverse() {
    let ring = RingMetadata::new(6).unwrap();
    assert_eq!(ring.inverse(2), None);
    assert_eq!(ring.inverse(3), None);
    assert_eq!(ring.inverse(4), None);
    assert_eq!(ring.inverse(5), Some(5));
    assert_eq!(ring.inverse(1), Some(1));
}

#[test]
fn heap_gives_smallest_first_and_keeps_duplicates() {
    let mut heap = MinHeap::new();
    assert_eq!(heap.pop(), None);
    for k in [5u64, 1, 4, 1, 9, 0] {
        heap.push(k);
    }
    assert_eq!(heap.len(), 6);
    let mut out = Vec::new();
    while let Some(k) = heap.pop() {
        out.push(k);
    }
    assert_eq!(out, vec![0, 1, 1, 4, 5, 9]);
    heap.push(3);
    heap.clear();
    assert_eq!(heap.len(), 0);
}

#[test]
fn merge_adds_scaled_entries() {
    let ring = RingMetadata::new(5).unwrap();
    let mut heap = MinHeap::new();
    let mut hash: HashMap<u64, u64> = HashMap::new();
    let mut row = vec![(3, 1), (1, 2), (8, 0)];
    update_heap_hash(&ring, &mut heap, &mut hash, &mut row, 3);
    assert!(row.is_empty());
    assert_eq!(hash.len(), 2);
    assert_eq!(hash[&3], 3);
    assert_eq!(hash[&1], 1);
    assert_eq!(heap.len(), 2);
    let mut row = vec![(3, 1), (2, 4), (1, 1)];
    update_heap_hash(&ring, &mut heap, &mut hash, &mut row, 2);
    // 3: 3 + 2 = 0, leaves; 2: 8 = 3, enters; 1: 1 + 2 = 3
    assert_eq!(hash.len(), 2);
    assert_eq!(hash[&2], 3);
    assert_eq!(hash[&1], 3);
    assert_eq!(heap.len(), 3);
    assert_eq!(drain_sorted(&mut heap, &mut hash), vec![(1, 3), (2, 3)]);
    assert!(hash.is_empty());
    assert_eq!(heap.len(), 0);
}

#[test]
fn cancelled_entry_is_not_selected_again() {
    let ring = RingMetadata::new(3).unwrap();
    let mut heap = MinHeap::new();
    let mut hash: HashMap<u64, u64> = HashMap::new();
    update_heap_hash(&ring, &mut heap, &mut hash, &mut vec![(4, 1), (7, 2)], 1);
    update_heap_hash(&ring, &mut heap, &mut hash, &mut vec![(4, 1)], 2);
    assert!(!hash.contains_key(&4));
    assert_eq!(heap.len(), 2);
    assert_eq!(pop_leading(&mut heap, &mut hash), Some((7, 2)));
    assert_eq!(heap.len(), 0);
    assert_eq!(pop_leading(&mut heap, &mut hash), None);
}

#[test]
fn entry_that_comes_back_is_selected_once() {
    let ring = RingMetadata::new(3).unwrap();
    let mut heap = MinHeap::new();
    let mut hash: HashMap<u64, u64> = HashMap::new();
    update_heap_hash(&ring, &mut heap, &mut hash, &mut vec![(4, 1), (7, 2)], 1);
    update_heap_hash(&ring, &mut heap, &mut hash, &mut vec![(4, 2)], 1);
    update_heap_hash(&ring, &mut heap, &mut hash, &mut vec![(4, 2)], 1);
    assert_eq!(heap.len(), 3);
    assert_eq!(pop_leading(&mut heap, &mut hash), Some((4, 2)));
    assert_eq!(pop_leading(&mut heap, &mut hash), Some((7, 2)));
    assert_eq!(pop_leading(&mut heap, &mut hash), None);
}

#[test]
fn insertion_order_does_not_change_the_leading_key() {
    let ring = RingMetadata::new(11).unwrap();
    let orders: [[(u64, u64); 4]; 3] = [
        [(9, 1), (2, 5), (6, 3), (4, 7)],
        [(4, 7), (6, 3), (2, 5), (9, 1)],
        [(6, 3), (9, 1), (4, 7), (2, 5)],
    ];
    for order in orders {
        let mut heap = MinHeap::new();
        let mut hash: HashMap<u64, u64> = HashMap::new();
        update_heap_hash(&ring, &mut heap, &mut hash, &mut order.to_vec(), 1);
        // cancel the smallest key, so that the next one has to be found
        update_heap_hash(&ring, &mut heap, &mut hash, &mut vec![(2, 6)], 1);
        assert_eq!(pop_leading(&mut heap, &mut hash), Some((4, 7)));
        assert_eq!(pop_leading(&mut heap, &mut hash), Some((6, 3)));
        assert_eq!(pop_leading(&mut heap, &mut hash), Some((9, 1)));
        assert_eq!(pop_leading(&mut heap, &mut hash), None);
    }
}

#[test]
fn restriction_keeps_active_columns_in_order() {
    let set: HashSet<u64> = [2u64, 9].into_iter().collect();
    let row = vec![(9, 1), (3, 1), (2, 4), (5, 5)];
    assert_eq!(restrict_row(&row, &set), vec![(9, 1), (2, 4)]);
    assert_eq!(restrict_row(&row, &HashSet::new()), Vec::new());
}

#[test]
fn loading_replaces_the_accumulator() {
    let mut heap = MinHeap::new();
    let mut hash: HashMap<u64, u64> = HashMap::new();
    heap.push(77);
    hash.insert(77, 1);
    load_heap_hash(&mut heap, &mut hash, &vec![(5, 2), (3, 0), (5, 4)]);
    assert_eq!(hash.len(), 2);
    assert_eq!(hash[&5], 4);
    assert_eq!(hash[&3], 0);
    assert_eq!(heap.len(), 3);
    assert_eq!(pop_leading(&mut heap, &mut hash), Some((3, 0)));
    assert_eq!(pop_leading(&mut heap, &mut hash), Some((5, 4)));
    assert_eq!(pop_leading(&mut heap, &mut hash), None);
}

#[test]
fn matrix_rows_are_stored_as_runs() {
    let ring = RingMetadata::new(5).unwrap();
    let mut m = CSM::with_capacity(4, MajorDimension::Row, ring);
    assert!(matches!(m.majdim, MajorDimension::Row));
    assert_eq!(m.nummaj, 0);
    m.push_snzval(0, 1);
    m.append_maj(&mut Vec::new());
    m.push_snzval(1, 1);
    let mut row = vec![(0, 3)];
    m.append_maj(&mut row);
    assert!(row.is_empty());
    assert_eq!(m.nummaj, 2);
    assert_eq!(m.majptr, vec![0, 1, 3]);
    assert_eq!(m.minind, vec![0, 1, 0]);
    assert_eq!(m.snzval, vec![1, 1, 3]);
    assert_eq!(m.maj_hash(0), vec![(0, 1)]);
    assert_eq!(m.maj_hash(1), vec![(1, 1), (0, 3)]);
    m.shrink_to_fit();
    assert_eq!(m.maj_hash(1), vec![(1, 1), (0, 3)]);
    assert_eq!(m.ring.modulus, 5);
}

#[test]
fn indexing_records_pivots_both_ways() {
    let mut ix = Indexing::with_capacity(3);
    assert_eq!(ix.insert(100, 7), 0);
    assert_eq!(ix.insert(200, 3), 1);
    assert_eq!(ix.insert(300, 5), 2);
    assert_eq!(ix.index_of_minkey(3), Some(1));
    assert_eq!(ix.index_of_minkey(4), None);
    assert_eq!(ix.index_of_majkey(300), Some(2));
    assert_eq!(ix.index_of_majkey(301), None);
    assert_eq!(ix.index_2_majkey, vec![100, 200, 300]);
    assert_eq!(ix.index_2_minkey, vec![7, 3, 5]);
    assert!(ix.ordered_minind.is_empty());
    ix.order_minkeys();
    assert_eq!(ix.ordered_minind, vec![1, 2, 0]);
}

#[test]
fn shrinking_gives_capacity_back_and_keeps_the_pivots() {
    let mut ix = Indexing::with_capacity(1000);
    ix.insert(100, 7);
    assert!(ix.index_2_majkey.capacity() >= 1000);
    ix.shrink_to_fit();
    assert!(ix.index_2_majkey.capacity() < 1000);
    assert!(ix.index_2_minkey.capacity() < 1000);
    assert!(ix.minkey_2_index.capacity() < 1000);
    assert!(ix.majkey_2_index.capacity() < 1000);
    assert_eq!(ix.index_2_majkey, vec![100]);
    assert_eq!(ix.index_2_minkey, vec![7]);
    assert_eq!(ix.index_of_minkey(7), Some(0));
    assert_eq!(ix.index_of_majkey(100), Some(0));
}
