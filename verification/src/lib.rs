//! An approximate nearest-neighbour index over a user-supplied metric: a hierarchical
//! navigable small world graph, with the queues and lists that its searches run on.
//!
//! The index is [`Hnsw`]. Points are inserted one by one and get their ids in that order. A
//! search descends through the layers of the graph with a [`Searcher`] for scratch space and
//! reports [`Neighbor`]s, nearest first. Distances come from a [`Metric`] and are unsigned
//! integers.
//!
//! What an index holds is stated over [`graph::GraphView`]: every function that changes an
//! index says which graph it leaves, and that the graph is in order. What a search finds is
//! the function [`graph::searched`] of the graph, the metric and the query; what an
//! insertion leaves is the function [`insertion::inserted`]. [`laws`] holds what follows for
//! every index and every search.
//!
//! Beside the index stand the collections that searches of this kind are built from: a
//! double-ended heap, sorted lists with and without a bound, and queues with one bucket for
//! each distance of a bit string of 128 bits. [`stored`] holds the steps of a search over
//! nodes that lie in a store and have to be fetched one by one.
use vstd::prelude::*;

pub mod candidate_queue;
pub mod candidates;
pub mod distance;
pub mod feature_heap;
pub mod graph;
pub mod hamming_queue;
pub mod heap_shape;
pub mod hnsw;
pub mod insertion;
pub mod laws;
pub mod level;
pub mod link;
pub mod metric;
pub mod min_max_heap;
pub mod nearest_queue;
pub mod nodes;
pub mod order;
pub mod parts;
pub mod searcher;
pub mod storage;
pub mod stored;
pub mod visited;

pub use crate::hnsw::Hnsw;
pub use crate::metric::{Metric, Neighbor};
pub use crate::searcher::Searcher;

verus! {

/// Build-time parameters of an index.
#[derive(Copy, Clone, Debug)]
pub struct Params {
    ef_construction: usize,
}

impl Params {
    /// The beam width that insertions search with.
    pub closed spec fn ef(self) -> usize {
        self.ef_construction
    }

    /// Parameters with the default construction beam width of 400.
    pub fn new() -> (p: Params)
        ensures
            p.ef() == 400,
    {
        Params { ef_construction: 400 }
    }

    /// Replaces the beam width used when inserting. The higher it is, the likelier the
    /// neighbours chosen for a new point are its true nearest ones, and the slower insertion
    /// becomes.
    pub fn ef_construction(self, ef_construction: usize) -> (p: Params)
        ensures
            p.ef() == ef_construction,
    {
        Params { ef_construction }
    }

    /// The beam width that insertions search with.
    pub fn get_ef_construction(&self) -> (ef: usize)
        ensures
            ef == self.ef(),
    {
        self.ef_construction
    }
}

impl Default for Params {
    fn default() -> (p: Params)
        ensures
            p.ef() == 400,
    {
        Params { ef_construction: 400 }
    }
}

} // verus!
