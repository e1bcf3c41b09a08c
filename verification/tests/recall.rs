//! The index on random 128-bit strings, against a scan of all points.

use hnsw::distance::{Distance, Hamming, Own};
use hnsw::{Hnsw, Neighbor, Searcher};
use rand_core::{RngCore, SeedableRng};
use rand_pcg::Pcg64;

fn random_points(rng: &mut Pcg64, n: usize) -> Vec<Hamming<u128>> {
    (0..n)
        .map(|_| Hamming(((rng.next_u64() as u128) << 64) | rng.next_u64() as u128))
        .collect()
}

fn index_of(points: &[Hamming<u128>]) -> (Hnsw<Own, Hamming<u128>, Pcg64, 12, 24>, Searcher) {
    let mut searcher = Searcher::default();
    let mut hnsw = Hnsw::new(Own);
    for &p in points {
        hnsw.insert(p, &mut searcher);
    }
    (hnsw, searcher)
}

fn nearest_by_scan(points: &[Hamming<u128>], q: &Hamming<u128>) -> u64 {
    points
        .iter()
        .map(|p| Distance::distance(p, q) as u64)
        .min()
        .unwrap()
}

fn agreeing(points: &[Hamming<u128>], queries: &[Hamming<u128>]) -> usize {
    let (hnsw, mut searcher) = index_of(points);
    let mut agree = 0;
    for q in queries {
        let mut dest = [Neighbor {
            index: !0,
            distance: !0,
        }; 1];
        let found = hnsw.nearest(q, 24, &mut searcher, &mut dest);
        assert_eq!(found.len(), 1);
        if found[0].distance == nearest_by_scan(points, q) {
            agree += 1;
        }
    }
    agree
}

#[test]
fn every_point_finds_itself() {
    let mut rng = Pcg64::seed_from_u64(5);
    let points = random_points(&mut rng, 1024);
    let (hnsw, mut searcher) = index_of(&points);
    assert_eq!(hnsw.len(), 1024);
    for (id, p) in points.iter().enumerate() {
        let mut dest = [Neighbor {
            index: !0,
            distance: !0,
        }; 1];
        let found = hnsw.nearest(p, 24, &mut searcher, &mut dest);
        assert_eq!(
            found,
            [Neighbor {
                index: id,
                distance: 0
            }]
        );
    }
}

#[test]
fn outliers_agree_with_a_scan() {
    let mut rng = Pcg64::seed_from_u64(7);
    let points = random_points(&mut rng, 1024);
    let queries = random_points(&mut rng, 100);
    assert!(agreeing(&points, &queries) >= 10);
}

#[test]
fn inliers_agree_with_a_scan() {
    let mut rng = Pcg64::seed_from_u64(11);
    let points = random_points(&mut rng, 1024);
    let queries: Vec<Hamming<u128>> = points[..100]
        .iter()
        .map(|p| {
            let mut bits = p.0;
            for bit in 0..128 {
                // Each bit flips with a chance of 0.0859.
                if rng.next_u32() < 368_937_000 {
                    bits ^= 1 << bit;
                }
            }
            Hamming(bits)
        })
        .collect();
    assert!(agreeing(&points, &queries) >= 90);
}

#[test]
fn same_seed_gives_the_same_index() {
    let mut rng = Pcg64::seed_from_u64(13);
    let points = random_points(&mut rng, 300);
    let queries = random_points(&mut rng, 40);
    let (a, mut searcher_a) = index_of(&points);
    let (b, mut searcher_b) = index_of(&points);
    assert_eq!(a.layers(), b.layers());
    for level in 0..a.layers() {
        assert_eq!(a.layer_len(level), b.layer_len(level));
        for item in 0..a.layer_len(level) {
            assert_eq!(a.layer_item_id(level, item), b.layer_item_id(level, item));
        }
    }
    for q in &queries {
        let mut dest_a = [Neighbor {
            index: !0,
            distance: !0,
        }; 16];
        let mut dest_b = dest_a;
        let found_a = a.nearest(q, 32, &mut searcher_a, &mut dest_a);
        let found_b = b.nearest(q, 32, &mut searcher_b, &mut dest_b);
        assert_eq!(found_a, found_b);
        assert_eq!(found_a.len(), 16);
    }
}

#[test]
fn wider_list_finds_no_farther_first_result_on_average() {
    let mut rng = Pcg64::seed_from_u64(17);
    let points = random_points(&mut rng, 512);
    let queries = random_points(&mut rng, 50);
    let (hnsw, mut searcher) = index_of(&points);
    let mut narrow = 0u64;
    let mut wide = 0u64;
    for q in &queries {
        let mut dest = [Neighbor {
            index: !0,
            distance: !0,
        }; 1];
        narrow += hnsw.nearest(q, 1, &mut searcher, &mut dest)[0].distance;
        wide += hnsw.nearest(q, 64, &mut searcher, &mut dest)[0].distance;
    }
    assert!(wide <= narrow);
}

#[test]
fn index_is_in_order() {
    let mut rng = Pcg64::seed_from_u64(19);
    let points = random_points(&mut rng, 1024);
    let (hnsw, _) = index_of(&points);
    let nil = !0usize;
    let top = hnsw.layers() - 1;
    // The highest layer holds a node, and layers are no larger than the layers below.
    assert!(hnsw.layer_len(top) >= 1);
    assert_eq!(hnsw.layer_len(0), 1024);
    for level in 0..=top {
        let size = hnsw.layer_len(level);
        if level > 0 {
            assert!(size <= hnsw.layer_len(level - 1));
        }
        let mut last_point = None;
        for item in 0..size {
            // Every node stands for one point, and for the same one as the node below it.
            let point = hnsw.layer_item_id(level, item);
            assert!(point < 1024);
            assert!(last_point < Some(point));
            last_point = Some(point);
            if level > 0 {
                let below = hnsw.layer_next_node(level, item);
                assert!(below < hnsw.layer_len(level - 1));
                assert_eq!(hnsw.layer_item_id(level - 1, below), point);
            } else {
                assert_eq!(point, item);
            }
            let slots = hnsw.layer_slots(level, item);
            assert_eq!(slots.len(), if level == 0 { 24 } else { 12 });
            let used = slots.iter().take_while(|&&n| n != nil).count();
            for (k, &n) in slots.iter().enumerate() {
                if k < used {
                    // A neighbour is a node of the layer, not the node itself, and named once.
                    assert!(n < size);
                    assert_ne!(n, item);
                    assert!(!slots[..k].contains(&n));
                } else {
                    // Empty slots come after the slots in use.
                    assert_eq!(n, nil);
                }
            }
        }
    }
}
