use hnsw::min_max_heap::MinMaxHeap;
use hnsw::Neighbor;

#[test]
fn test_basic() {
    let mut heap = MinMaxHeap::new();
    heap.push(3);
    heap.push(1);
    heap.push(2);
    assert_eq!(heap.peek_min(), Some(&1));
    assert_eq!(heap.peek_max(), Some(&3));
    assert_eq!(heap.pop_min(), Some(1));
    assert_eq!(heap.pop_max(), Some(3));
    assert_eq!(heap.pop_min(), Some(2));
    assert_eq!(heap.pop_min(), None);
}

#[test]
fn test_complex() {
    let mut heap = MinMaxHeap::new();
    heap.push(4);
    heap.push(2);
    heap.push(6);
    heap.push(1);
    heap.push(5);
    assert_eq!(heap.peek_min(), Some(&1));
    assert_eq!(heap.peek_max(), Some(&6));
    assert_eq!(heap.pop_min(), Some(1));
    assert_eq!(heap.peek_min(), Some(&2));
    assert_eq!(heap.pop_max(), Some(6));
    assert_eq!(heap.peek_max(), Some(&5));

    let mut heap = MinMaxHeap::new();
    for i in 0..1000 {
        heap.push(i);
    }

    for i in 0..1000 {
        assert_eq!(heap.peek_min(), Some(&i));
        assert_eq!(heap.pop_min(), Some(i));
    }

    for i in 0..1000 {
        heap.push(i);
    }

    for i in 0..500 {
        assert_eq!(heap.pop_min(), Some(i));
        assert_eq!(heap.pop_max(), Some(1000 - i - 1));
    }

    for i in (0..1000).rev() {
        heap.push(i);
    }
    for i in 0..500 {
        assert_eq!(heap.pop_min(), Some(i));
        assert_eq!(heap.pop_max(), Some(1000 - i - 1));
    }

    let mut heap = MinMaxHeap::new();
    for i in 0..10 {
        heap.push(Neighbor {
            index: 10 - i,
            distance: i as u64,
        });
    }
}

#[test]
fn heap_pop_min_k_takes_the_least_in_order() {
    let mut heap = MinMaxHeap::with_capacity(8);
    for x in [7u32, 3, 9, 1, 5, 3] {
        heap.push(x);
    }
    assert_eq!(heap.len(), 6);
    assert_eq!(heap.pop_min_k(4), vec![1, 3, 3, 5]);
    assert_eq!(heap.len(), 2);
    let mut rest: Vec<u32> = heap.iter().cloned().collect();
    rest.sort_unstable();
    assert_eq!(rest, vec![7, 9]);
    assert_eq!(heap.pop_min_k(5), vec![7, 9]);
    assert_eq!(heap.pop_max(), None);
    heap.push(2);
    heap.clear();
    assert_eq!(heap.len(), 0);
    assert_eq!(heap.peek_min(), None);
    assert_eq!(heap.peek_max(), None);
}

#[test]
fn greatest_stays_at_the_root_when_the_least_goes() {
    let mut heap = MinMaxHeap::new();
    for (id, key) in [(0, 5), (1, 9), (2, 1), (3, 9), (4, 3), (5, 1)] {
        heap.push((key, id));
    }
    while heap.len() >= 2 {
        let greatest = *heap.peek_max().unwrap();
        let least = *heap.peek_min().unwrap();
        assert_eq!(heap.pop_min(), Some(least));
        assert_eq!(heap.peek_max(), Some(&greatest));
    }
    assert_eq!(heap.pop_min(), Some((9, 3)));
}
