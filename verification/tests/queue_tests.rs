//! Neighbour priority-queue behaviour, with distances as the
//! order-preserving keys of their floating-point values.

use vectordb::neighbor_queue::{MaxHeap, MinHeap, Neighbor};

fn key_of(d: f32) -> u64 {
    let b = d.to_bits();
    let k = if b & 0x8000_0000 != 0 { !b } else { b | 0x8000_0000 };
    k as u64
}

#[test]
fn test_max_heap_ordering() {
    let mut heap = MaxHeap::new();
    heap.push(Neighbor::new(0, key_of(3.0)));
    heap.push(Neighbor::new(1, key_of(1.0)));
    heap.push(Neighbor::new(2, key_of(2.0)));

    assert_eq!(heap.pop().unwrap().distance, key_of(3.0));
    assert_eq!(heap.pop().unwrap().distance, key_of(2.0));
    assert_eq!(heap.pop().unwrap().distance, key_of(1.0));
}

#[test]
fn test_min_heap_ordering() {
    let mut heap = MinHeap::new();
    heap.push(Neighbor::new(0, key_of(3.0)));
    heap.push(Neighbor::new(1, key_of(1.0)));
    heap.push(Neighbor::new(2, key_of(2.0)));

    assert_eq!(heap.pop().unwrap().distance, key_of(1.0));
    assert_eq!(heap.pop().unwrap().distance, key_of(2.0));
    assert_eq!(heap.pop().unwrap().distance, key_of(3.0));
}

#[test]
fn test_bounded_push() {
    let mut heap = MaxHeap::new();
    heap.push_bounded(Neighbor::new(0, key_of(5.0)), 2);
    heap.push_bounded(Neighbor::new(1, key_of(1.0)), 2);
    heap.push_bounded(Neighbor::new(2, key_of(3.0)), 2);

    assert_eq!(heap.len(), 2);
    let sorted = heap.into_sorted_vec();
    assert_eq!(sorted[0].distance, key_of(1.0));
    assert_eq!(sorted[1].distance, key_of(3.0));
}

#[test]
fn test_into_sorted_vec() {
    let mut heap = MaxHeap::new();
    heap.push(Neighbor::new(0, key_of(5.0)));
    heap.push(Neighbor::new(1, key_of(1.0)));
    heap.push(Neighbor::new(2, key_of(3.0)));
    heap.push(Neighbor::new(3, key_of(2.0)));

    let sorted = heap.into_sorted_vec();
    for i in 0..sorted.len() - 1 {
        assert!(sorted[i].distance <= sorted[i + 1].distance);
    }
}

#[test]
fn test_key_order_matches_float_order() {
    let samples = [-3.5f32, -1.0, -0.0, 0.0, 0.25, 1.0, 2.5, 1e30];
    for a in samples {
        for b in samples {
            if a < b {
                assert!(key_of(a) <= key_of(b));
            }
        }
    }
}
