//! A priority queue for searches in a space whose distances run from 0 to 128, such as the
//! Hamming distances of 128-bit strings.
//!
//! The queue has one bucket for each distance. The lowest bucket that may hold an item is
//! remembered, so that taking the nearest item out does not start from 0 each time: it
//! moves up as buckets are found empty, and down again when an item comes in below it.
use vstd::prelude::*;

verus! {

/// The number of buckets of a queue: one for each distance from 0 to 128.
pub const BUCKETS: usize = 129;

/// The first bucket at or after `from` that holds an item; the last bucket if none does.
pub open spec fn next_filled<T>(buckets: Seq<Seq<T>>, from: int) -> int
    decreases 128 - from,
{
    if from >= 128 || buckets[from].len() > 0 {
        from
    } else {
        next_filled(buckets, from + 1)
    }
}

/// `next_filled` is a bucket at or after `from`, and no bucket between the two holds an
/// item.
pub proof fn lemma_next_filled<T>(buckets: Seq<Seq<T>>, from: int)
    requires
        0 <= from <= 128,
    ensures
        from <= next_filled(buckets, from) <= 128,
        forall|i: int| from <= i < next_filled(buckets, from) ==> buckets[i].len() == 0,
        next_filled(buckets, from) < 128 ==> buckets[next_filled(buckets, from)].len() > 0,
    decreases 128 - from,
{
    if from < 128 && buckets[from].len() == 0 {
        lemma_next_filled(buckets, from + 1);
    }
}

/// As many empty buckets as a queue has.
pub fn empty_buckets<T>() -> (buckets: Vec<Vec<T>>)
    ensures
        buckets@.len() == BUCKETS,
        forall|i: int| 0 <= i < BUCKETS ==> (#[trigger] buckets@[i])@.len() == 0,
{
    let mut buckets: Vec<Vec<T>> = Vec::with_capacity(BUCKETS);
    let mut i: usize = 0;
    while i < BUCKETS
        invariant
            0 <= i <= BUCKETS,
            buckets@.len() == i,
            forall|j: int| 0 <= j < i ==> (#[trigger] buckets@[j])@.len() == 0,
        decreases BUCKETS - i,
    {
        buckets.push(Vec::new());
        i += 1;
    }
    buckets
}

/// Empties every bucket and keeps the memory.
pub fn clear_buckets<T>(buckets: &mut Vec<Vec<T>>)
    ensures
        final(buckets)@.len() == old(buckets)@.len(),
        forall|i: int| 0 <= i < final(buckets)@.len() ==> (#[trigger] final(buckets)@[i])@.len() == 0,
{
    let n = buckets.len();
    let mut i: usize = 0;
    while i < n
        invariant
            0 <= i <= n,
            buckets@.len() == n,
            forall|j: int| 0 <= j < i ==> (#[trigger] buckets@[j])@.len() == 0,
        decreases n - i,
    {
        buckets[i].clear();
        i += 1;
    }
}

/// A queue of items by distance, from which the nearest item is taken first.
pub struct CandidateQueue<T> {
    distances: Vec<Vec<T>>,
    lowest: usize,
}

impl<T> CandidateQueue<T> {
    /// The items of each bucket, in the order in which they came.
    pub closed spec fn buckets(&self) -> Seq<Seq<T>> {
        Seq::new(self.distances@.len(), |i: int| self.distances@[i]@)
    }

    /// The lowest bucket that the queue still looks into.
    pub closed spec fn lowest(&self) -> int {
        self.lowest as int
    }

    /// The queue has its 129 buckets, and no bucket below the lowest one that it looks
    /// into holds an item.
    pub open spec fn wf(&self) -> bool {
        &&& self.buckets().len() == BUCKETS
        &&& 0 <= self.lowest() <= 128
        &&& forall|i: int| 0 <= i < self.lowest() ==> (#[trigger] self.buckets()[i]).len() == 0
    }

    /// An empty queue.
    pub fn new() -> (queue: Self)
        ensures
            queue.wf(),
            queue.lowest() == 0,
            forall|i: int| 0 <= i < BUCKETS ==> (#[trigger] queue.buckets()[i]).len() == 0,
    {
        CandidateQueue { distances: empty_buckets(), lowest: 0 }
    }

    /// Empties the queue and keeps the memory.
    pub fn clear(&mut self)
        requires
            old(self).wf(),
        ensures
            final(self).wf(),
            final(self).lowest() == 0,
            forall|i: int| 0 <= i < BUCKETS ==> (#[trigger] final(self).buckets()[i]).len() == 0,
    {
        clear_buckets(&mut self.distances);
        self.lowest = 0;
    }

    /// Takes out the nearest item, with its distance: of the items at the least distance
    /// held, the one that came last. An empty queue gives nothing.
    pub fn pop(&mut self) -> (taken: Option<(T, u32)>)
        requires
            old(self).wf(),
        ensures
            final(self).wf(),
            final(self).lowest() == next_filled(old(self).buckets(), old(self).lowest()),
            taken is None <==> forall|i: int|
                0 <= i < BUCKETS ==> (#[trigger] old(self).buckets()[i]).len() == 0,
            taken is None ==> final(self).buckets() == old(self).buckets(),
            taken is Some ==> (taken->0).1 == final(self).lowest() && old(self).buckets()[final(self).lowest()].len() > 0 && (taken->0).0 == old(self).buckets()[final(self).lowest()].last() && final(self).buckets() == old(self).buckets().update(
                final(self).lowest(),
                old(self).buckets()[final(self).lowest()].drop_last(),
            ),
            taken is Some ==> forall|i: int|
                0 <= i < (taken->0).1 ==> (#[trigger] old(self).buckets()[i]).len() == 0,
    {
        let ghost before = self.buckets();
        let ghost start = self.lowest();
        proof {
            lemma_next_filled(before, start);
        }
        loop
            invariant
                old(self).wf(),
                before == old(self).buckets(),
                start == old(self).lowest(),
                self.buckets() == before,
                before.len() == BUCKETS,
                start <= self.lowest() <= 128,
                forall|i: int| 0 <= i < self.lowest() ==> (#[trigger] before[i]).len() == 0,
                next_filled(before, self.lowest()) == next_filled(before, start),
            decreases 128 - self.lowest,
        {
            let lowest = self.lowest;
            let ghost bucket = self.distances@[lowest as int]@;
            proof {
                assert(self.buckets()[lowest as int] == bucket);
            }
            match self.distances[lowest].pop() {
                Some(node) => {
                    proof {
                        assert(before[lowest as int].len() > 0);
                        assert(next_filled(before, lowest as int) == lowest);
                        assert(self.buckets() =~= before.update(
                            lowest as int,
                            before[lowest as int].drop_last(),
                        ));
                    }
                    return Some((node, lowest as u32));
                },
                None => {
                    proof {
                        assert(before[lowest as int].len() == 0);
                        assert(self.buckets() =~= before);
                    }
                    if lowest == 128 {
                        proof {
                            assert(next_filled(before, lowest as int) == lowest);
                        }
                        return None;
                    }
                    self.lowest = lowest + 1;
                },
            }
        }
    }

    /// Puts an item into the bucket of its distance, which is at most 128. The queue looks
    /// into that bucket from now on if it did not look as low before.
    pub fn insert(&mut self, node: T, distance: u32)
        requires
            old(self).wf(),
            distance <= 128,
        ensures
            final(self).wf(),
            final(self).lowest() == if distance < old(self).lowest() {
                distance as int
            } else {
                old(self).lowest()
            },
            final(self).buckets() == old(self).buckets().update(
                distance as int,
                old(self).buckets()[distance as int].push(node),
            ),
    {
        let ghost before = self.buckets();
        self.distances[distance as usize].push(node);
        if (distance as usize) < self.lowest {
            self.lowest = distance as usize;
        }
        proof {
            assert(self.buckets() =~= before.update(
                distance as int,
                before[distance as int].push(node),
            ));
        }
    }

    /// The least distance at which the queue holds an item, if it holds one.
    pub fn distance(&self) -> (nearest: Option<u32>)
        requires
            self.wf(),
        ensures
            nearest is None <==> forall|i: int|
                0 <= i < BUCKETS ==> (#[trigger] self.buckets()[i]).len() == 0,
            nearest is Some ==> nearest->0 == next_filled(self.buckets(), self.lowest())
                && self.buckets()[nearest->0 as int].len() > 0 && forall|i: int|
                0 <= i < nearest->0 ==> (#[trigger] self.buckets()[i]).len() == 0,
    {
        let mut i: usize = self.lowest;
        proof {
            lemma_next_filled(self.buckets(), self.lowest());
        }
        while i < 128 && self.distances[i].len() == 0
            invariant
                self.wf(),
                self.lowest() <= i <= 128,
                forall|k: int| 0 <= k < i ==> (#[trigger] self.buckets()[k]).len() == 0,
                next_filled(self.buckets(), i as int) == next_filled(
                    self.buckets(),
                    self.lowest(),
                ),
            decreases 128 - i,
        {
            proof {
                assert(self.buckets()[i as int].len() == 0);
            }
            i += 1;
        }
        proof {
            assert(self.buckets()[i as int].len() == self.distances@[i as int]@.len());
        }
        if self.distances[i].len() == 0 {
            None
        } else {
            Some(i as u32)
        }
    }
}

impl<T> Default for CandidateQueue<T> {
    fn default() -> (queue: Self)
        ensures
            queue.wf(),
            queue.lowest() == 0,
            forall|i: int| 0 <= i < BUCKETS ==> (#[trigger] queue.buckets()[i]).len() == 0,
    {
        CandidateQueue::new()
    }
}

} // verus!
