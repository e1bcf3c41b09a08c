//! The scratch space of a search.

use hnsw::{Neighbor, Searcher};

fn nb(index: usize, distance: u64) -> Neighbor {
    Neighbor { index, distance }
}

#[test]
fn searcher_keeps_its_list_in_order() {
    let mut searcher = Searcher::new();
    assert_eq!(searcher.peek_min(), None);
    assert!(!searcher.check_push(5, 0));
    assert!(searcher.check_push(5, 1));
    searcher.push(nb(1, 30));
    searcher.push(nb(2, 10));
    searcher.push(nb(3, 30));
    searcher.push(nb(4, 20));
    assert_eq!(searcher.peek_min(), Some(&nb(2, 10)));
    // Of two nodes as far as each other the one that came first stays first.
    assert_eq!(searcher.iter_nearest_index(), vec![2, 4, 1, 3]);
    assert!(searcher.check_push(40, 5));
    assert!(!searcher.check_push(30, 4));
    assert!(searcher.check_push(29, 4));
    assert_eq!(searcher.get_top_k_nearest(3), vec![nb(2, 10), nb(4, 20), nb(1, 30)]);
    assert_eq!(searcher.iter_nearest_index(), vec![3]);
    assert_eq!(searcher.get_top_k_nearest(3), vec![nb(3, 30)]);
    assert_eq!(searcher.get_top_k_nearest(3), vec![]);
    searcher.push(nb(9, 1));
    searcher.clear();
    assert_eq!(searcher.peek_min(), None);
    assert_eq!(Searcher::with_capacity(4).iter_nearest_index(), vec![]);
    assert_eq!(Searcher::default().peek_min(), None);
}
