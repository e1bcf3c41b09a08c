//! An index that is written out, read back and put together again.

use hnsw::nodes::{NeighborNodes, Node, NIL};
use hnsw::{Hnsw, Metric, Neighbor, Params, Searcher};
use rand_pcg::Pcg64;

struct Hamming;

impl Metric<u8> for Hamming {
    fn dist(&self, a: &u8, b: &u8) -> u64 {
        self.distance(a, b)
    }

    fn distance(&self, a: &u8, b: &u8) -> u64 {
        (a ^ b).count_ones() as u64
    }
}

type Index = Hnsw<Hamming, u8, Pcg64, 12, 24>;

/// The parts of an index as values that can be written out.
type Written = (Vec<u8>, Vec<Vec<usize>>, Vec<Vec<(usize, usize, Vec<usize>)>>);

fn test_hnsw_discrete() -> (Index, Searcher) {
    let mut searcher = Searcher::default();
    let mut hnsw = Hnsw::new(Hamming);

    let features = [
        0b0001, 0b0010, 0b0100, 0b1000, 0b0011, 0b0110, 0b1100, 0b1001,
    ];

    for &feature in &features {
        hnsw.insert(feature, &mut searcher);
    }

    (hnsw, searcher)
}

fn write(hnsw: Index) -> Vec<u8> {
    let (_, _, _, features, zero, layers) = hnsw.into_parts();
    let written: Written = (
        features,
        zero.iter().map(|n| n.neighbors.to_vec()).collect(),
        layers
            .iter()
            .map(|layer| {
                layer
                    .iter()
                    .map(|n| (n.zero_node, n.next_node, n.neighbors.neighbors.to_vec()))
                    .collect()
            })
            .collect(),
    );
    rmp_serde::to_vec(&written).expect("failed to serialize hnsw")
}

fn read(bytes: &[u8]) -> Option<Index> {
    let (features, zero, layers): Written =
        rmp_serde::from_slice(bytes).expect("failed to deserialize hnsw");
    let zero = zero
        .into_iter()
        .map(|n| NeighborNodes {
            neighbors: n.try_into().unwrap(),
        })
        .collect();
    let layers = layers
        .into_iter()
        .map(|layer| {
            layer
                .into_iter()
                .map(|(zero_node, next_node, n)| Node {
                    zero_node,
                    next_node,
                    neighbors: NeighborNodes {
                        neighbors: n.try_into().unwrap(),
                    },
                })
                .collect()
        })
        .collect();
    Hnsw::from_parts(
        Hamming,
        rand_core::SeedableRng::seed_from_u64(0),
        Params::new(),
        features,
        zero,
        layers,
    )
}

#[test]
fn serde() {
    let (hnsw_unser, mut searcher) = test_hnsw_discrete();
    let hnsw_str = write(hnsw_unser);
    let hnsw = read(&hnsw_str).unwrap();
    let mut neighbors = [Neighbor {
        index: !0,
        distance: !0,
    }; 8];

    hnsw.nearest(&0b0001, 24, &mut searcher, &mut neighbors);
    // Distance 1
    neighbors[1..3].sort_unstable();
    // Distance 2
    neighbors[3..6].sort_unstable();
    // Distance 3
    neighbors[6..8].sort_unstable();
    assert_eq!(
        neighbors,
        [
            Neighbor {
                index: 0,
                distance: 0
            },
            Neighbor {
                index: 4,
                distance: 1
            },
            Neighbor {
                index: 7,
                distance: 1
            },
            Neighbor {
                index: 1,
                distance: 2
            },
            Neighbor {
                index: 2,
                distance: 2
            },
            Neighbor {
                index: 3,
                distance: 2
            },
            Neighbor {
                index: 5,
                distance: 3
            },
            Neighbor {
                index: 6,
                distance: 3
            }
        ]
    );
}

#[test]
fn same_inserts_are_written_alike() {
    let (a, _) = test_hnsw_discrete();
    let (b, _) = test_hnsw_discrete();
    assert_eq!(write(a), write(b));
}

fn parts(
    points: usize,
    zero: Vec<[usize; 2]>,
    layers: Vec<Vec<(usize, usize, [usize; 2])>>,
) -> Option<Hnsw<Hamming, u8, (), 2, 2>> {
    Hnsw::from_parts(
        Hamming,
        (),
        Params::new(),
        (0..points as u8).collect(),
        zero.into_iter()
            .map(|neighbors| NeighborNodes { neighbors })
            .collect(),
        layers
            .into_iter()
            .map(|layer| {
                layer
                    .into_iter()
                    .map(|(zero_node, next_node, neighbors)| Node {
                        zero_node,
                        next_node,
                        neighbors: NeighborNodes { neighbors },
                    })
                    .collect()
            })
            .collect(),
    )
}

#[test]
fn parts_out_of_order_are_turned_away() {
    let good_zero = vec![[1, 2], [0, NIL], [0, 1]];
    let good_layers = vec![vec![(0, 0, [1, NIL]), (2, 2, [0, NIL])], vec![(2, 1, [NIL, NIL])]];
    assert!(parts(3, good_zero.clone(), good_layers.clone()).is_some());
    assert!(parts(0, vec![], vec![]).is_some());
    // A point without a node, and a node without a point.
    assert!(parts(4, good_zero.clone(), good_layers.clone()).is_none());
    assert!(parts(2, good_zero.clone(), good_layers.clone()).is_none());
    // An empty slot before a neighbour, a neighbour that is no node, a node that is its own
    // neighbour, and a neighbour named twice.
    assert!(parts(3, vec![[NIL, 2], [0, NIL], [0, 1]], vec![]).is_none());
    assert!(parts(3, vec![[1, 3], [0, NIL], [0, 1]], vec![]).is_none());
    assert!(parts(3, vec![[1, 2], [1, NIL], [0, 1]], vec![]).is_none());
    assert!(parts(3, vec![[1, 2], [0, NIL], [1, 1]], vec![]).is_none());
    // An empty layer, a node for a point that is missing below, a node that names the wrong
    // place below, and nodes out of the order of their points.
    assert!(parts(3, good_zero.clone(), vec![vec![]]).is_none());
    assert!(parts(
        3,
        good_zero.clone(),
        vec![vec![(0, 0, [NIL, NIL])], vec![(2, 0, [NIL, NIL])]]
    )
    .is_none());
    assert!(parts(3, good_zero.clone(), vec![vec![(1, 2, [NIL, NIL])]]).is_none());
    assert!(parts(
        3,
        good_zero.clone(),
        vec![vec![(2, 2, [NIL, NIL]), (0, 0, [NIL, NIL])]]
    )
    .is_none());
    assert!(parts(3, good_zero, vec![vec![(0, 0, [1, NIL])]]).is_none());
}

#[test]
fn parts_in_order_are_searched() {
    let hnsw = parts(
        3,
        vec![[1, 2], [0, NIL], [0, 1]],
        vec![vec![(0, 0, [1, NIL]), (2, 2, [0, NIL])]],
    )
    .unwrap();
    let mut searcher = Searcher::new();
    let mut dest = [Neighbor {
        index: !0,
        distance: !0,
    }; 3];
    // The points are 0, 1 and 2. The search starts at the point 0, finds the point 2 in the
    // layer above and comes down there.
    assert_eq!(
        hnsw.nearest(&3, 3, &mut searcher, &mut dest),
        [
            Neighbor {
                index: 2,
                distance: 1
            },
            Neighbor {
                index: 1,
                distance: 1
            }
        ]
    );
}
