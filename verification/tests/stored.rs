//! The steps of a search over nodes that are fetched one by one.

use hnsw::storage::{NeighborNodes, UNUSED};
use hnsw::stored;
use hnsw::{Metric, Neighbor, Searcher};

struct Line;

impl Metric<u64> for Line {
    fn dist(&self, a: &u64, b: &u64) -> u64 {
        self.distance(a, b)
    }

    fn distance(&self, a: &u64, b: &u64) -> u64 {
        if a < b {
            b - a
        } else {
            a - b
        }
    }
}

/// Five points on a line, each with the points beside it as its neighbours.
const POINTS: [u64; 5] = [0, 10, 20, 30, 40];
const NEIGHBOURS: [&[usize]; 5] = [&[1], &[0, 2], &[1, 3], &[2, 4], &[3]];

fn fetch(id: usize) -> Vec<(usize, u64)> {
    NEIGHBOURS[id].iter().map(|&n| (n, POINTS[n])).collect()
}

fn search(q: u64, cap: usize, entry: usize) -> (Searcher, Vec<usize>) {
    let mut searcher = Searcher::new();
    let mut visited = vec![];
    stored::begin(&Line, &q, &mut searcher, entry, &POINTS[entry]);
    let mut next = stored::next_candidate(&mut searcher, cap);
    while let Some(id) = next {
        visited.push(id);
        next = stored::expand_fetched(&Line, &q, &mut searcher, cap, &fetch(id));
    }
    (searcher, visited)
}

#[test]
fn fetched_nodes_are_searched_nearest_first() {
    let (mut searcher, visited) = search(33, 2, 0);
    assert_eq!(visited, vec![0, 1, 2, 3, 4]);
    assert_eq!(
        searcher.get_top_k_nearest(5),
        vec![
            Neighbor {
                index: 3,
                distance: 3
            },
            Neighbor {
                index: 4,
                distance: 7
            }
        ]
    );
}

#[test]
fn search_ends_at_a_node_farther_than_the_worst_kept() {
    // From 2 the search meets 1 and 3; with room for one node it keeps 2 and looks no
    // further.
    let (searcher, visited) = search(21, 1, 2);
    assert_eq!(visited, vec![2]);
    assert_eq!(searcher.iter_nearest_index(), vec![2]);
    // With room for three it goes on to the nodes it met and from them to 0 and 4, which
    // are too far to be kept.
    let (searcher, visited) = search(21, 3, 2);
    assert_eq!(visited, vec![2, 3, 1]);
    assert_eq!(searcher.iter_nearest_index(), vec![2, 3, 1]);
}

#[test]
fn search_goes_down_from_the_best_node() {
    let (mut searcher, _) = search(33, 2, 0);
    stored::go_down_layer(&mut searcher);
    assert_eq!(searcher.iter_nearest_index(), vec![3]);
    assert_eq!(stored::next_candidate(&mut searcher, 4), Some(3));
    // The nodes met in the layer above are not looked at again.
    assert_eq!(
        stored::expand_fetched(&Line, &33, &mut searcher, 4, &fetch(3)),
        None
    );
    assert_eq!(searcher.iter_nearest_index(), vec![3]);
    assert_eq!(stored::next_candidate(&mut searcher, 4), None);
}

#[test]
fn copy_of_a_searcher_goes_its_own_way() {
    let (searcher, _) = search(33, 2, 0);
    let mut copy = searcher.clone();
    assert_eq!(copy.iter_nearest_index(), vec![3, 4]);
    copy.clear();
    assert_eq!(copy.iter_nearest_index(), vec![]);
    assert_eq!(searcher.iter_nearest_index(), vec![3, 4]);
    // The copy has met what the first had met.
    let mut copy = searcher.clone();
    stored::go_down_layer(&mut copy);
    assert_eq!(stored::next_candidate(&mut copy, 4), Some(3));
    assert_eq!(
        stored::expand_fetched(&Line, &33, &mut copy, 4, &fetch(3)),
        None
    );
}

#[test]
fn new_node_gets_the_nodes_found_and_is_offered_to_them() {
    let (searcher, _) = search(33, 2, 0);
    let mut list: NeighborNodes<3> = NeighborNodes::new();
    stored::assign_neighbors(&mut list, &searcher);
    assert_eq!(list.neighbors, [(3, 3), (4, 7), (0, UNUSED)]);
    let mut short: NeighborNodes<1> = NeighborNodes::new();
    stored::assign_neighbors(&mut short, &searcher);
    assert_eq!(short.neighbors, [(3, 3)]);

    // The node 30 takes the new node 33, which is nearer to it than its neighbours.
    let mut target = NeighborNodes {
        neighbors: [(2, 10), (4, 10), (0, UNUSED)],
    };
    stored::add_neighbor(&Line, &33, 5, &30, &mut target);
    assert_eq!(target.neighbors, [(5, 3), (2, 10), (4, 10)]);
    // The node 0 is full of nearer neighbours and turns it away.
    let mut full = NeighborNodes {
        neighbors: [(1, 10), (2, 20)],
    };
    stored::add_neighbor(&Line, &33, 5, &0, &mut full);
    assert_eq!(full.neighbors, [(1, 10), (2, 20)]);
}

#[test]
fn widths_and_costs() {
    assert_eq!(stored::beam_width(2, 400, 0), 400);
    assert_eq!(stored::beam_width(2, 400, 2), 400);
    assert_eq!(stored::beam_width(2, 400, 3), 1);
    assert_eq!(stored::cost(0), 0);
    assert_eq!(stored::cost(77), 77);
    assert_eq!(stored::cost(u32::MAX as u64 - 1), u32::MAX - 1);
    assert_eq!(stored::cost(u32::MAX as u64), u32::MAX - 1);
    assert_eq!(stored::cost(u64::MAX), u32::MAX - 1);
}
