//! A priority queue of tree nodes for searches by Hamming weight, whose distances run from 0
//! to 128. It works as the candidate queue does, and holds with each node the level of the
//! tree that the node is in.
use vstd::prelude::*;
use crate::candidate_queue::{next_filled, CandidateQueue, BUCKETS};

verus! {

/// A queue of nodes and their levels by distance, from which the nearest node is taken
/// first.
pub struct NodeQueue<T> {
    queue: CandidateQueue<(T, u8)>,
}

impl<T> NodeQueue<T> {
    /// The nodes of each bucket with their levels, in the order in which they came.
    pub closed spec fn buckets(&self) -> Seq<Seq<(T, u8)>> {
        self.queue.buckets()
    }

    /// The lowest bucket that the queue still looks into.
    pub closed spec fn lowest(&self) -> int {
        self.queue.lowest()
    }

    /// The queue has its 129 buckets, and no bucket below the lowest one that it looks
    /// into holds a node.
    pub open spec fn wf(&self) -> bool {
        &&& self.buckets().len() == BUCKETS
        &&& 0 <= self.lowest() <= 128
        &&& forall|i: int| 0 <= i < self.lowest() ==> (#[trigger] self.buckets()[i]).len() == 0
    }

    /// An empty queue.
    pub fn new() -> (queue: Self)
        ensures
            queue.wf(),
            queue.lowest() == 0,
            forall|i: int| 0 <= i < BUCKETS ==> (#[trigger] queue.buckets()[i]).len() == 0,
    {
        NodeQueue { queue: CandidateQueue::new() }
    }

    /// Empties the queue and keeps the memory.
    pub fn clear(&mut self)
        requires
            old(self).wf(),
        ensures
            final(self).wf(),
            final(self).lowest() == 0,
            forall|i: int| 0 <= i < BUCKETS ==> (#[trigger] final(self).buckets()[i]).len() == 0,
    {
        self.queue.clear();
    }

    /// Takes out the nearest node, as `(distance, node, level)`: of the nodes at the least
    /// distance held, the one that came last. An empty queue gives nothing.
    pub fn pop(&mut self) -> (taken: Option<(u32, T, u8)>)
        requires
            old(self).wf(),
        ensures
            final(self).wf(),
            final(self).lowest() == next_filled(old(self).buckets(), old(self).lowest()),
            taken is None <==> forall|i: int|
                0 <= i < BUCKETS ==> (#[trigger] old(self).buckets()[i]).len() == 0,
            taken is None ==> final(self).buckets() == old(self).buckets(),
            taken is Some ==> (taken->0).0 == final(self).lowest() && old(self).buckets()[final(self).lowest()].len() > 0 && ((taken->0).1, (taken->0).2) == old(self).buckets()[final(self).lowest()].last() && final(self).buckets() == old(self).buckets().update(
                final(self).lowest(),
                old(self).buckets()[final(self).lowest()].drop_last(),
            ),
            taken is Some ==> forall|i: int|
                0 <= i < (taken->0).0 ==> (#[trigger] old(self).buckets()[i]).len() == 0,
    {
        match self.queue.pop() {
            Some(((node, level), distance)) => Some((distance, node, level)),
            None => None,
        }
    }

    /// Puts a node, given as `(distance, node, level)`, into the bucket of its distance,
    /// which is at most 128. The queue looks into that bucket from now on if it did not look
    /// as low before.
    pub fn add_one(&mut self, entry: (u32, T, u8))
        requires
            old(self).wf(),
            entry.0 <= 128,
        ensures
            final(self).wf(),
            final(self).lowest() == if entry.0 < old(self).lowest() {
                entry.0 as int
            } else {
                old(self).lowest()
            },
            final(self).buckets() == old(self).buckets().update(
                entry.0 as int,
                old(self).buckets()[entry.0 as int].push((entry.1, entry.2)),
            ),
    {
        let (distance, node, level) = entry;
        self.queue.insert((node, level), distance);
    }

    /// The least distance at which the queue holds a node, if it holds one.
    pub fn distance(&self) -> (nearest: Option<u32>)
        requires
            self.wf(),
        ensures
            nearest is None <==> forall|i: int|
                0 <= i < BUCKETS ==> (#[trigger] self.buckets()[i]).len() == 0,
            nearest is Some ==> nearest->0 == next_filled(self.buckets(), self.lowest())
                && self.buckets()[nearest->0 as int].len() > 0 && forall|i: int|
                0 <= i < nearest->0 ==> (#[trigger] self.buckets()[i]).len() == 0,
    {
        self.queue.distance()
    }
}

impl<T> Default for NodeQueue<T> {
    fn default() -> (queue: Self)
        ensures
            queue.wf(),
            queue.lowest() == 0,
            forall|i: int| 0 <= i < BUCKETS ==> (#[trigger] queue.buckets()[i]).len() == 0,
    {
        NodeQueue::new()
    }
}

} // verus!
