use hnsw::candidates::{Candidates, FixedCandidates};

#[test]
fn test_candidates() {
    let mut candidates = FixedCandidates::default();
    candidates.set_cap(3);
    assert!(candidates.push(1.0f32.to_bits(), 0));
    assert!(candidates.push(0.5f32.to_bits(), 1));
    assert!(candidates.push(0.000_000_01f32.to_bits(), 2));
    assert!(!candidates.push(1.1f32.to_bits(), 3));
    assert!(!candidates.push(2.0f32.to_bits(), 4));
    assert!(candidates.push(0.000_000_000_1f32.to_bits(), 5));
    assert!(!candidates.push(1_000_000.0f32.to_bits(), 6));
    assert!(!candidates.push(0.6f32.to_bits(), 7));
    assert!(!candidates.push(0.5f32.to_bits(), 8));
    assert!(candidates.push(0.000_000_01f32.to_bits(), 9));
    assert!(!candidates.push(0.000_000_01f32.to_bits(), 10));
    let mut arr = [0; 3];
    candidates.fill_slice(&mut arr);
    arr[0..2].sort_unstable();
    assert_eq!(arr, [2, 5, 9]);
}

#[test]
fn candidates_pop_nearest_first() {
    let mut candidates = Candidates::default();
    candidates.push(5, 1);
    candidates.push(3, 2);
    candidates.push(9, 3);
    assert_eq!(candidates.pop(), Some((3, 2)));
    candidates.push(5, 4);
    candidates.push(7, 5);
    // Of two pairs as far as each other the one that came first goes first.
    assert_eq!(candidates.pop(), Some((5, 1)));
    assert_eq!(candidates.pop(), Some((5, 4)));
    assert_eq!(candidates.pop(), Some((7, 5)));
    assert_eq!(candidates.pop(), Some((9, 3)));
    assert_eq!(candidates.pop(), None);
    candidates.push(1, 1);
    candidates.clear();
    assert_eq!(candidates.pop(), None);
}

#[test]
fn fixed_candidates_keep_the_nearest_in_the_order_they_came() {
    let mut candidates = FixedCandidates::default();
    assert!(!candidates.push(1, 0));
    candidates.set_cap(4);
    assert!(candidates.push(20, 2));
    assert!(candidates.push(10, 1));
    assert!(candidates.push(30, 3));
    assert!(candidates.push(20, 4));
    assert_eq!(candidates.len(), 4);
    let mut arr = [0; 4];
    assert_eq!(candidates.fill_slice(&mut arr), [1, 2, 4, 3]);
    // A shorter bound gives up the farthest pairs.
    candidates.set_cap(2);
    assert_eq!(candidates.len(), 2);
    let mut arr = [9; 3];
    assert_eq!(candidates.fill_slice(&mut arr), [1, 2]);
    assert_eq!(arr, [1, 2, 9]);
    assert!(!candidates.push(20, 5));
    assert!(candidates.push(19, 6));
    assert_eq!(candidates.pop(), Some((19, 6)));
    assert_eq!(candidates.pop(), Some((10, 1)));
    assert_eq!(candidates.pop(), None);
    assert!(candidates.is_empty());
    candidates.clear();
    assert!(!candidates.push(1, 7));
}
