//! The index on small inputs whose results can be worked out by hand.

use hnsw::level::level_of_sample;
use hnsw::{Hnsw, Metric, Neighbor, Params, Searcher};
use rand_pcg::Pcg64;

/// Points on a line.
#[derive(Clone)]
struct Line;

impl Metric<u64> for Line {
    fn dist(&self, a: &u64, b: &u64) -> u64 {
        self.distance(a, b)
    }

    fn distance(&self, a: &u64, b: &u64) -> u64 {
        if a < b {
            b - a
        } else {
            a - b
        }
    }
}

const BLANK: Neighbor = Neighbor {
    index: !0,
    distance: !0,
};

#[test]
fn empty_index_finds_nothing() {
    let hnsw: Hnsw<Line, u64, Pcg64, 12, 24> = Hnsw::new(Line);
    let mut searcher = Searcher::new();
    let mut dest = [BLANK; 4];
    assert!(hnsw.is_empty());
    assert_eq!(hnsw.len(), 0);
    assert_eq!(hnsw.layers(), 1);
    assert_eq!(hnsw.nearest(&5, 10, &mut searcher, &mut dest).len(), 0);
    assert_eq!(dest, [BLANK; 4]);
    assert_eq!(hnsw.search_layer(&5, 10, 3, &mut searcher, &mut dest).len(), 0);
    assert_eq!(hnsw.knn(&5, 3), vec![]);
}

#[test]
fn single_point_is_found() {
    let mut hnsw: Hnsw<Line, u64, Pcg64, 12, 24> = Hnsw::new(Line);
    let mut searcher = Searcher::new();
    assert_eq!(hnsw.insert(40, &mut searcher), 0);
    assert!(!hnsw.is_empty());
    assert_eq!(hnsw.len(), 1);
    assert_eq!(*hnsw.feature(0), 40);
    let mut dest = [BLANK; 4];
    let found = hnsw.nearest(&47, 10, &mut searcher, &mut dest);
    assert_eq!(
        found,
        [Neighbor {
            index: 0,
            distance: 7
        }]
    );
    assert_eq!(dest[1], BLANK);
}

#[test]
fn fewer_points_than_asked_for() {
    let mut hnsw: Hnsw<Line, u64, Pcg64, 12, 24> = Hnsw::new(Line);
    let mut searcher = Searcher::new();
    for p in [10u64, 30, 20] {
        hnsw.insert_at_level(p, 0, &mut searcher);
    }
    let mut dest = [BLANK; 8];
    let found = hnsw.nearest(&19, 24, &mut searcher, &mut dest);
    assert_eq!(
        found,
        [
            Neighbor {
                index: 2,
                distance: 1
            },
            Neighbor {
                index: 0,
                distance: 9
            },
            Neighbor {
                index: 1,
                distance: 11
            }
        ]
    );
    assert_eq!(dest[3], BLANK);
}

#[test]
fn narrow_list_bounds_the_result() {
    let mut hnsw: Hnsw<Line, u64, Pcg64, 12, 24> = Hnsw::new(Line);
    let mut searcher = Searcher::new();
    for p in 0..20u64 {
        hnsw.insert_at_level(p * 10, 0, &mut searcher);
    }
    let mut dest = [BLANK; 8];
    let found = hnsw.nearest(&101, 3, &mut searcher, &mut dest);
    assert_eq!(found.len(), 3);
    assert_eq!(
        found[0],
        Neighbor {
            index: 10,
            distance: 1
        }
    );
    assert!(found[0].distance <= found[1].distance && found[1].distance <= found[2].distance);
    assert_eq!(dest[3], BLANK);
    let mut short = [BLANK; 2];
    assert_eq!(hnsw.nearest(&101, 24, &mut searcher, &mut short).len(), 2);
    assert_eq!(
        short,
        [
            Neighbor {
                index: 10,
                distance: 1
            },
            Neighbor {
                index: 11,
                distance: 9
            }
        ]
    );
}

#[test]
fn equal_distances_come_in_the_order_met() {
    let mut hnsw: Hnsw<Line, u64, Pcg64, 12, 24> = Hnsw::new(Line);
    let mut searcher = Searcher::new();
    for p in [50u64, 40, 60, 50] {
        hnsw.insert_at_level(p, 0, &mut searcher);
    }
    let mut dest = [BLANK; 4];
    let ids: Vec<usize> = hnsw
        .nearest(&50, 24, &mut searcher, &mut dest)
        .iter()
        .map(|n| n.index)
        .collect();
    assert_eq!(ids, vec![0, 3, 1, 2]);
}

#[test]
fn full_node_gives_up_its_farthest_neighbour() {
    // One slot a node: 0 and 10 point at each other until 1 takes the slot of 0, after
    // which nothing points at 10 any more.
    let mut hnsw: Hnsw<Line, u64, Pcg64, 1, 1> = Hnsw::new(Line);
    let mut searcher = Searcher::new();
    assert_eq!(hnsw.insert_at_level(0, 0, &mut searcher), 0);
    assert_eq!(hnsw.insert_at_level(10, 0, &mut searcher), 1);
    let mut dest = [BLANK; 3];
    assert_eq!(
        hnsw.nearest(&10, 1, &mut searcher, &mut dest),
        [Neighbor {
            index: 1,
            distance: 0
        }]
    );
    assert_eq!(hnsw.insert_at_level(1, 0, &mut searcher), 2);
    assert_eq!(
        hnsw.nearest(&10, 1, &mut searcher, &mut dest),
        [Neighbor {
            index: 2,
            distance: 9
        }]
    );
    assert_eq!(
        hnsw.nearest(&10, 2, &mut searcher, &mut dest),
        [
            Neighbor {
                index: 2,
                distance: 9
            },
            Neighbor {
                index: 0,
                distance: 10
            }
        ]
    );
}

#[test]
fn farther_node_is_turned_away_by_a_full_node() {
    let mut hnsw: Hnsw<Line, u64, Pcg64, 1, 1> = Hnsw::new(Line);
    let mut searcher = Searcher::new();
    hnsw.insert_at_level(0, 0, &mut searcher);
    hnsw.insert_at_level(1, 0, &mut searcher);
    // 0 keeps 1, which is nearer to it than 10, and 10 is reached from no node.
    hnsw.insert_at_level(10, 0, &mut searcher);
    let mut dest = [BLANK; 3];
    assert_eq!(
        hnsw.nearest(&10, 3, &mut searcher, &mut dest),
        [
            Neighbor {
                index: 1,
                distance: 9
            },
            Neighbor {
                index: 0,
                distance: 10
            }
        ]
    );
}

#[test]
fn levels_make_layers() {
    let mut hnsw: Hnsw<Line, u64, Pcg64, 4, 8> =
        Hnsw::new_params(Line, Params::new().ef_construction(16));
    let mut searcher = Searcher::with_capacity(16);
    assert_eq!(hnsw.insert_at_level(100, 2, &mut searcher), 0);
    assert_eq!(hnsw.layers(), 3);
    assert_eq!(hnsw.insert_at_level(200, 0, &mut searcher), 1);
    assert_eq!(hnsw.insert_at_level(300, 1, &mut searcher), 2);
    assert_eq!(hnsw.insert_at_level(400, 3, &mut searcher), 3);
    assert_eq!(hnsw.layers(), 4);
    assert_eq!(hnsw.len(), 4);
    assert_eq!(hnsw.layer_len(0), 4);
    assert_eq!(hnsw.layer_len(1), 3);
    assert_eq!(hnsw.layer_len(2), 2);
    assert_eq!(hnsw.layer_len(3), 1);
    assert_eq!(hnsw.layer_len(4), 0);
    assert!(hnsw.layer_is_empty(4));
    assert!(!hnsw.layer_is_empty(3));
    assert_eq!(hnsw.layer_item_id(0, 2), 2);
    assert_eq!(hnsw.layer_item_id(1, 0), 0);
    assert_eq!(hnsw.layer_item_id(1, 1), 2);
    assert_eq!(hnsw.layer_item_id(1, 2), 3);
    assert_eq!(hnsw.layer_item_id(2, 1), 3);
    assert_eq!(hnsw.layer_item_id(3, 0), 3);
    assert_eq!(*hnsw.layer_feature(1, 1), 300);
    assert_eq!(*hnsw.layer_feature(3, 0), 400);

    // A search that stops in a layer reports the place in that layer.
    let mut dest = [BLANK; 4];
    assert_eq!(
        hnsw.search_layer(&290, 8, 1, &mut searcher, &mut dest),
        [Neighbor {
            index: 1,
            distance: 10
        }]
    );
    assert_eq!(
        hnsw.search_layer(&90, 8, 3, &mut searcher, &mut dest),
        [Neighbor {
            index: 0,
            distance: 310
        }]
    );
    assert_eq!(
        hnsw.search_layer(&90, 8, 4, &mut searcher, &mut dest).len(),
        0
    );
    // The points 300 and 400 are met in the layers above, where the list of one entry
    // has no room for them; a point met once is not looked at again.
    let all: Vec<usize> = hnsw
        .nearest(&90, 8, &mut searcher, &mut dest)
        .iter()
        .map(|n| n.index)
        .collect();
    assert_eq!(all, vec![0, 1]);
}

#[test]
fn knn_gives_the_nearest_first() {
    let mut hnsw: Hnsw<Line, u64, Pcg64, 12, 24> = Hnsw::new_with_capacity(Line, Params::new(), 64);
    let mut searcher = Searcher::new();
    for p in 0..50u64 {
        hnsw.insert_with_sample(p * p, u64::MAX, &mut searcher);
    }
    assert_eq!(
        hnsw.knn(&26, 3),
        vec![
            Neighbor {
                index: 5,
                distance: 1
            },
            Neighbor {
                index: 4,
                distance: 10
            },
            Neighbor {
                index: 6,
                distance: 10
            }
        ]
    );
    assert_eq!(hnsw.knn(&26, 0), vec![]);
    assert_eq!(hnsw.knn(&26, 100).len(), 50);
}

#[test]
fn first_result_is_as_near_as_the_entry_point() {
    let mut hnsw: Hnsw<Line, u64, Pcg64, 2, 2> = Hnsw::new(Line);
    let mut searcher = Searcher::new();
    for p in [500u64, 3, 250, 7, 900, 11, 640, 1, 333] {
        hnsw.insert(p, &mut searcher);
    }
    let entry = hnsw.layer_item_id(hnsw.layers() - 1, 0);
    for q in [0u64, 5, 260, 700, 1000] {
        let mut dest = [BLANK; 1];
        let found = hnsw.nearest(&q, 1, &mut searcher, &mut dest);
        assert_eq!(found.len(), 1);
        assert!(found[0].distance <= Line.distance(&q, hnsw.feature(entry)));
        assert_eq!(found[0].distance, Line.distance(&q, hnsw.feature(found[0].index)));
    }
}

#[test]
fn level_of_a_sample() {
    // The greatest exponent l for which sample * m^l is a 64-bit number.
    assert_eq!(level_of_sample(u64::MAX, 12), 0);
    assert_eq!(level_of_sample(u64::MAX / 12 + 1, 12), 0);
    assert_eq!(level_of_sample(u64::MAX / 12, 12), 1);
    assert_eq!(level_of_sample(u64::MAX / 144 + 1, 12), 1);
    assert_eq!(level_of_sample(u64::MAX / 144, 12), 2);
    assert_eq!(level_of_sample(1, 12), 17);
    assert_eq!(level_of_sample(0, 12), 17);
    assert_eq!(level_of_sample(1, 2), 63);
    assert_eq!(level_of_sample(2, 2), 62);
    assert_eq!(level_of_sample(1, 1), 0);
    assert_eq!(level_of_sample(1, 0), 0);
    assert_eq!(level_of_sample(1 << 32, 1 << 16), 1);
}

#[test]
fn given_generator_is_used() {
    let mut a: Hnsw<Line, u64, Pcg64, 12, 24> = Hnsw::new(Line);
    let mut b: Hnsw<Line, u64, u8, 12, 24> =
        Hnsw::new_params_and_prng(Line, Params::new().ef_construction(400), 0u8);
    let mut c: Hnsw<Line, u64, (), 12, 24> = Hnsw::new_prng(Line, ());
    let mut searcher = Searcher::new();
    for p in [9u64, 2, 7, 4] {
        a.insert_at_level(p, 0, &mut searcher);
        b.insert_at_level(p, 0, &mut searcher);
        c.insert_at_level(p, 0, &mut searcher);
    }
    assert_eq!(a.knn(&5, 4), b.knn(&5, 4));
    assert_eq!(a.knn(&5, 4), c.knn(&5, 4));
}

#[test]
fn copy_of_an_index_goes_its_own_way() {
    let mut hnsw: Hnsw<Line, u64, Pcg64, 12, 24> = Hnsw::new(Line);
    let mut searcher = Searcher::new();
    for p in [10u64, 30, 20] {
        hnsw.insert(p, &mut searcher);
    }
    let mut copy = hnsw.clone();
    assert_eq!(copy.insert(24, &mut searcher), 3);
    assert_eq!(copy.len(), 4);
    assert_eq!(hnsw.len(), 3);
    assert_eq!(copy.knn(&25, 1), vec![Neighbor { index: 3, distance: 1 }]);
    assert_eq!(hnsw.knn(&25, 1), vec![Neighbor { index: 1, distance: 5 }]);
    // The copy draws the levels that the index would have drawn.
    assert_eq!(hnsw.insert(24, &mut searcher), 3);
    assert_eq!(hnsw.layers(), copy.layers());
    assert_eq!(hnsw.knn(&25, 4), copy.knn(&25, 4));
}
