//! Adjacency lists and the record of a stored index.

use hnsw::nodes::{HasNeighbors, Layer, NeighborNodes, Node, NIL};
use hnsw::storage::{self, MetaData, UNUSED};

#[test]
fn neighbours_end_at_the_first_empty_slot() {
    let empty: NeighborNodes<4> = NeighborNodes::new();
    assert_eq!(empty.neighbors, [NIL; 4]);
    assert_eq!(empty.neighbors(), vec![]);
    let some = NeighborNodes {
        neighbors: [7, 3, NIL, 9],
    };
    assert_eq!(some.neighbors(), vec![7, 3]);
    assert_eq!(some.get_neighbors(), vec![7, 3]);
    let full = Node {
        zero_node: 5,
        next_node: 2,
        neighbors: NeighborNodes { neighbors: [1, 0] },
    };
    assert_eq!(full.get_neighbors(), vec![1, 0]);
    assert_eq!(NIL, !0);
    assert!(matches!(Layer::NonZero(3), Layer::NonZero(3)));
    assert!(matches!(Layer::<u8>::Zero, Layer::Zero));
}

#[test]
fn stored_neighbours_stay_in_order_of_distance() {
    let mut list: storage::NeighborNodes<3> = storage::NeighborNodes::new();
    assert_eq!(list.neighbors, [(0, UNUSED); 3]);
    assert_eq!(list.neighbors(), vec![]);
    list.add_neighbor(4, 20);
    list.add_neighbor(5, 10);
    assert_eq!(list.neighbors(), vec![(5, 10), (4, 20)]);
    list.add_neighbor(6, 20);
    assert_eq!(list.neighbors, [(5, 10), (6, 20), (4, 20)]);
    // The list is full: the farthest neighbour goes, and a farther one does not get in.
    list.add_neighbor(7, 15);
    assert_eq!(list.neighbors, [(5, 10), (7, 15), (6, 20)]);
    list.add_neighbor(8, 21);
    assert_eq!(list.neighbors, [(5, 10), (7, 15), (6, 20)]);
    list.assign(2, 9, 16);
    assert_eq!(list.neighbors(), vec![(5, 10), (7, 15), (9, 16)]);
}

#[test]
fn record_counts_nodes_and_keeps_the_first_entry_point() {
    let mut meta = MetaData::new();
    assert_eq!(meta.num_node(), 0);
    assert_eq!(meta.entry_point, None);
    meta.store_new_node(7);
    assert_eq!(meta.num_node(), 1);
    assert_eq!(meta.entry_point, Some(7));
    meta.store_new_node(8);
    assert_eq!(meta.num_node(), 2);
    assert_eq!(meta.num_nodes, Some(2));
    assert_eq!(meta.entry_point, Some(7));
    meta.update_entry_point(8);
    assert_eq!(meta.entry_point, Some(8));
    assert_eq!(meta.num_node(), 2);
    // A count below zero is read as the unsigned number of the same bits.
    meta.num_nodes = Some(-1);
    assert_eq!(meta.num_node(), usize::MAX);
    meta.num_nodes = Some(i32::MIN);
    assert_eq!(meta.num_node(), i32::MIN as usize);
}
