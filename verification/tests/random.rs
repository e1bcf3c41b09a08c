//! The index on random vectors of floats, against a scan of all points.

use hnsw::{Hnsw, Metric, Neighbor, Searcher};
use rand_core::{RngCore, SeedableRng};
use rand_pcg::Pcg64;

struct SimpleEuclidean;

impl Metric<Vec<f32>> for SimpleEuclidean {
    fn dist(&self, lhs: &Vec<f32>, rhs: &Vec<f32>) -> u64 {
        self.distance(lhs, rhs)
    }

    fn distance(&self, lhs: &Vec<f32>, rhs: &Vec<f32>) -> u64 {
        let value = lhs
            .iter()
            .zip(rhs.iter())
            .map(|(&l, &r)| (l - r).powi(2))
            .sum::<f32>()
            .sqrt();
        value.to_bits() as u64
    }
}

const PUT_SAMPLES: usize = 5_000;
const QUERY_SAMPLES: usize = 50;

fn samples(rng: &mut Pcg64, n: usize) -> Vec<Vec<f32>> {
    (0..n)
        .map(|_| {
            (0..4)
                .map(|_| (rng.next_u32() >> 8) as f32 / (1u32 << 24) as f32)
                .collect()
        })
        .collect()
}

fn index_of(features: &[Vec<f32>]) -> (Hnsw<SimpleEuclidean, Vec<f32>, Pcg64, 12, 24>, Searcher) {
    let mut hnsw = Hnsw::new(SimpleEuclidean);
    let mut searcher = Searcher::new();
    for (id, feature) in features.iter().enumerate() {
        assert_eq!(hnsw.insert(feature.clone(), &mut searcher), id);
    }
    (hnsw, searcher)
}

fn nearest(
    hnsw: &Hnsw<SimpleEuclidean, Vec<f32>, Pcg64, 12, 24>,
    searcher: &mut Searcher,
    q: &Vec<f32>,
) -> Vec<Neighbor> {
    let mut dest = [Neighbor {
        index: !0,
        distance: !0,
    }; 24];
    hnsw.nearest(q, 24, searcher, &mut dest).to_vec()
}

#[test]
fn random() {
    let mut rng = Pcg64::seed_from_u64(23);
    let features = samples(&mut rng, PUT_SAMPLES);
    let query = samples(&mut rng, QUERY_SAMPLES);
    let (hnsw, mut searcher) = index_of(&features);

    let mut pass = 0;

    for q in query.iter() {
        let euclidean_distance = SimpleEuclidean;

        let expected = features
            .iter()
            .enumerate()
            .min_by_key(|(_, feature)| euclidean_distance.distance(q, feature))
            .unwrap();
        let found = nearest(&hnsw, &mut searcher, q);
        if expected.0 == found[0].index {
            pass += 1;
        }
    }

    println!("pass {} / {} tests", pass, query.len());
    assert!(pass >= 10);
}

#[test]
fn random2() {
    let mut rng = Pcg64::seed_from_u64(29);
    let features = samples(&mut rng, PUT_SAMPLES);
    let query = samples(&mut rng, QUERY_SAMPLES);
    let (hnsw, mut searcher) = index_of(&features);

    let mut pass = 0;

    for q in query.iter() {
        let euclidean_distance = SimpleEuclidean;

        let mut expected = features
            .iter()
            .enumerate()
            .map(|(index, feature)| Neighbor {
                index,
                distance: euclidean_distance.distance(q, feature),
            })
            .collect::<Vec<_>>();
        expected.sort_by(|a, b| a.distance.cmp(&b.distance));
        let top10 = expected.drain(0..10).collect::<Vec<_>>();
        let found = nearest(&hnsw, &mut searcher, q);
        if top10.contains(&found[0]) {
            pass += 1;
        }
    }

    println!("pass {} / {} tests", pass, query.len());
    assert!(pass as f32 / query.len() as f32 >= 0.8);
}
