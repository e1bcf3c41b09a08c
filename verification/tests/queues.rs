//! The bucket queues for distances from 0 to 128.

use hnsw::candidate_queue::CandidateQueue;
use hnsw::feature_heap::FeatureHeap;
use hnsw::hamming_queue::NodeQueue;
use hnsw::nearest_queue::NearestQueue;

#[test]
fn candidate_queue_gives_the_nearest_first() {
    let mut queue = CandidateQueue::new();
    assert_eq!(queue.distance(), None);
    assert_eq!(queue.pop(), None);
    queue.clear();
    queue.insert('a', 5);
    queue.insert('b', 128);
    queue.insert('c', 5);
    queue.insert('d', 0);
    assert_eq!(queue.distance(), Some(0));
    assert_eq!(queue.pop(), Some(('d', 0)));
    assert_eq!(queue.distance(), Some(5));
    // Within one distance the last to come goes first.
    assert_eq!(queue.pop(), Some(('c', 5)));
    assert_eq!(queue.pop(), Some(('a', 5)));
    assert_eq!(queue.distance(), Some(128));
    assert_eq!(queue.pop(), Some(('b', 128)));
    assert_eq!(queue.pop(), None);
    assert_eq!(queue.distance(), None);
}

#[test]
fn candidate_queue_takes_what_comes_in_below() {
    let mut queue = CandidateQueue::default();
    queue.insert(1u8, 5);
    assert_eq!(queue.pop(), Some((1, 5)));
    // The queue has moved on to distance 5; an item below it is found all the same.
    queue.insert(2, 3);
    queue.insert(3, 9);
    assert_eq!(queue.distance(), Some(3));
    assert_eq!(queue.pop(), Some((2, 3)));
    assert_eq!(queue.pop(), Some((3, 9)));
    assert_eq!(queue.pop(), None);
    // So is an item that comes into a queue found empty.
    queue.insert(4, 3);
    assert_eq!(queue.distance(), Some(3));
    assert_eq!(queue.pop(), Some((4, 3)));
    assert_eq!(queue.pop(), None);
    queue.insert(5, 128);
    queue.insert(6, 0);
    queue.clear();
    assert_eq!(queue.pop(), None);
}

#[test]
fn node_queue_gives_the_nearest_first() {
    let mut queue = NodeQueue::new();
    assert_eq!(queue.pop(), None);
    queue.add_one((64, "far", 2));
    queue.add_one((3, "near", 1));
    queue.add_one((3, "nearer", 4));
    assert_eq!(queue.distance(), Some(3));
    assert_eq!(queue.pop(), Some((3, "nearer", 4)));
    assert_eq!(queue.pop(), Some((3, "near", 1)));
    queue.add_one((1, "late", 0));
    assert_eq!(queue.distance(), Some(1));
    assert_eq!(queue.pop(), Some((1, "late", 0)));
    assert_eq!(queue.pop(), Some((64, "far", 2)));
    assert_eq!(queue.pop(), None);
    queue.add_one((2, "last", 0));
    queue.clear();
    assert_eq!(queue.distance(), None);
    queue.add_one((1, "new", 0));
    assert_eq!(queue.pop(), Some((1, "new", 0)));
    let mut other: NodeQueue<u8> = NodeQueue::default();
    assert_eq!(other.distance(), None);
    assert_eq!(other.pop(), None);
}

#[test]
fn nearest_queue_keeps_the_nearest() {
    let mut queue = NearestQueue::new();
    // Without a capacity the queue takes nothing.
    assert!(!queue.insert(0u32, 1));
    queue.reset(3);
    assert_eq!(queue.capacity(), 3);
    assert_eq!(queue.worst(), 128);
    assert!(queue.insert(10, 50));
    assert!(queue.insert(11, 20));
    assert_eq!(queue.worst(), 128);
    assert!(queue.insert(12, 50));
    assert_eq!(queue.len(), 3);
    assert_eq!(queue.worst(), 50);
    assert!(!queue.insert(13, 50));
    assert!(!queue.insert(14, 51));
    assert!(queue.insert(15, 49));
    assert_eq!(queue.worst(), 50);
    assert!(queue.insert(16, 0));
    assert_eq!(queue.worst(), 49);
    assert_eq!(queue.len(), 3);
    assert_eq!(queue.bucket_len(49), 1);
    assert_eq!(queue.bucket_len(50), 0);
    let mut dest = [0u32; 5];
    assert_eq!(queue.fill_slice(&mut dest), [16, 11, 15]);
    assert_eq!(dest, [16, 11, 15, 0, 0]);
    let mut short = [0u32; 2];
    assert_eq!(queue.fill_slice(&mut short), [16, 11]);
}

#[test]
fn nearest_queue_shrinks_from_the_far_end() {
    let mut queue = NearestQueue::default();
    queue.reset(5);
    for (item, distance) in [(1u8, 30), (2, 10), (3, 30), (4, 70)] {
        assert!(queue.insert(item, distance));
    }
    queue.set_size(6);
    assert_eq!(queue.len(), 4);
    queue.set_size(2);
    assert_eq!(queue.len(), 2);
    assert_eq!(queue.worst(), 128);
    let mut dest = [0u8; 4];
    assert_eq!(queue.fill_slice(&mut dest), [2, 1]);
    // There is room again.
    assert!(queue.insert(5, 100));
    queue.set_capacity(2);
    assert_eq!(queue.capacity(), 2);
    assert_eq!(queue.len(), 2);
    assert_eq!(queue.worst(), 30);
    assert_eq!(queue.fill_slice(&mut dest), [2, 1]);
    assert!(!queue.insert(6, 30));
    assert!(queue.insert(7, 29));
    assert_eq!(queue.fill_slice(&mut dest), [2, 7]);
    queue.set_capacity(0);
    assert_eq!(queue.len(), 0);
    assert_eq!(queue.fill_slice(&mut dest).len(), 0);
}

#[test]
fn feature_heap_keeps_the_nearest_features() {
    let mut heap = FeatureHeap::new();
    assert!(heap.done());
    heap.reset(2, 0b1111);
    assert!(!heap.done());
    // Distances 4, 1 and 2 from the search feature.
    heap.add(&[0b0000, 0b0111, 0b0011]);
    let mut dest = [0u128; 4];
    assert_eq!(heap.fill_slice(&mut dest), [0b0111, 0b0011]);
    // Only the search feature itself is within distance 0.
    assert!(!heap.done());
    heap.search_distance(1);
    assert!(!heap.done());
    heap.search_distance(2);
    assert!(heap.done());
    heap.add(&[0b1111, 0b1011, 0b0000]);
    assert_eq!(heap.fill_slice(&mut dest), [0b1111, 0b0111]);
    assert_eq!(dest, [0b1111, 0b0111, 0, 0]);
    let mut one = [0u128; 1];
    assert_eq!(heap.fill_slice(&mut one), [0b1111]);
}

#[test]
fn feature_heap_counts_what_is_within_reach() {
    let mut heap = FeatureHeap::default();
    heap.reset(3, u128::MAX);
    heap.search_distance(1);
    heap.add_one(u128::MAX);
    heap.add_one(u128::MAX - 1);
    assert!(!heap.done());
    heap.add_one(0);
    // The heap is full, and one feature is beyond the distance reached.
    assert!(!heap.done());
    heap.add_one(u128::MAX - 2);
    assert!(heap.done());
    let mut dest = [0u128; 3];
    assert_eq!(
        heap.fill_slice(&mut dest),
        [u128::MAX, u128::MAX - 1, u128::MAX - 2]
    );
}
