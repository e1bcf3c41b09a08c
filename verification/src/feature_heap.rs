//! The nearest 128-bit features to a search feature found so far, by Hamming distance.
use vstd::prelude::*;
use vstd::pervasive::cloned;
use crate::candidate_queue::BUCKETS;
use crate::distance::{count_ones_u128, ones};
use crate::nearest_queue::{highest_filled, total, NearestQueue};

verus! {

/// The Hamming distance of two 128-bit features.
pub open spec fn hamming(a: u128, b: u128) -> u32 {
    ones((a ^ b) as nat) as u32
}

/// How many items the buckets from `from` up to, but not including, `upto` hold.
pub open spec fn held_between<T>(buckets: Seq<Seq<T>>, from: int, upto: int) -> nat
    decreases upto - from,
{
    if upto <= from {
        0
    } else {
        held_between(buckets, from, upto - 1) + buckets[upto - 1].len()
    }
}

/// A count raised by a number, and stopped at the greatest `usize`.
pub open spec fn raised(count: usize, by: nat) -> usize {
    if count + by <= usize::MAX {
        (count + by) as usize
    } else {
        usize::MAX
    }
}

/// What a heap holds and has counted, as plain values.
pub struct HeapView {
    /// The features of each distance from the search feature.
    pub buckets: Seq<Seq<u128>>,
    /// How many features within the distance reached have been counted.
    pub in_search: usize,
}

/// The distance that a feature has to beat to get into a heap of capacity `cap`.
pub open spec fn worst_of(buckets: Seq<Seq<u128>>, cap: usize) -> u32 {
    if total(buckets) < cap {
        128
    } else {
        highest_filled(buckets, 128) as u32
    }
}

/// Whether a heap of capacity `cap` takes a feature at distance `d`.
pub open spec fn takes(buckets: Seq<Seq<u128>>, cap: usize, d: u32) -> bool {
    cap > 0 && (total(buckets) < cap || d < worst_of(buckets, cap))
}

/// A heap after a feature is offered to it: the feature is counted if it is within the
/// distance reached and, where only features that are taken count, the heap takes it.
pub open spec fn offered_one(
    v: HeapView,
    cap: usize,
    search: u128,
    reached: u32,
    taken_only: bool,
    feature: u128,
) -> HeapView {
    let d = hamming(feature, search);
    HeapView {
        buckets: FeatureHeap::offered(
            v.buckets,
            cap,
            total(v.buckets) as usize,
            worst_of(v.buckets, cap),
            feature,
            d,
        ),
        in_search: if d <= reached && (!taken_only || takes(v.buckets, cap, d)) {
            raised(v.in_search, 1)
        } else {
            v.in_search
        },
    }
}

/// A heap after the first `upto` of the features are offered to it, in order.
pub open spec fn offered_all(
    v: HeapView,
    cap: usize,
    search: u128,
    reached: u32,
    taken_only: bool,
    features: Seq<u128>,
    upto: int,
) -> HeapView
    decreases upto,
{
    if upto <= 0 {
        v
    } else {
        offered_one(
            offered_all(v, cap, search, reached, taken_only, features, upto - 1),
            cap,
            search,
            reached,
            taken_only,
            features[upto - 1],
        )
    }
}

/// Keeps the `cap` features nearest to a search feature, and counts how many features
/// within the distance that the search has reached have been offered to it.
pub struct FeatureHeap {
    queue: NearestQueue<u128>,
    in_search: usize,
    search_distance: u32,
    search: u128,
}

impl FeatureHeap {
    /// The features of each distance from the search feature, in the order in which they
    /// came.
    pub closed spec fn buckets(&self) -> Seq<Seq<u128>> {
        self.queue.buckets()
    }

    /// The greatest number of features kept.
    pub closed spec fn cap(&self) -> usize {
        self.queue.cap()
    }

    /// The number of features kept.
    pub closed spec fn size(&self) -> usize {
        self.queue.size()
    }

    /// The distance that a feature has to beat to get in once the heap is full.
    pub closed spec fn worst_distance(&self) -> u32 {
        self.queue.worst_distance()
    }

    /// The feature that the features are compared with.
    pub closed spec fn search(&self) -> u128 {
        self.search
    }

    /// The distance that the search has reached.
    pub closed spec fn reached(&self) -> u32 {
        self.search_distance
    }

    /// How many features within the distance reached have been counted.
    pub closed spec fn in_search(&self) -> usize {
        self.in_search
    }

    /// The heap counts its features rightly and holds no more than it may; while it has
    /// room its worst distance is 128, and once it is full, that is the distance of its
    /// farthest feature. The distance that its search has reached is one of 0 to 128.
    pub open spec fn wf(&self) -> bool {
        &&& self.buckets().len() == BUCKETS
        &&& self.size() == total(self.buckets())
        &&& self.size() <= self.cap()
        &&& self.worst_distance() <= 128
        &&& self.size() < self.cap() ==> self.worst_distance() == 128
        &&& self.size() == self.cap() && self.cap() > 0 ==> self.worst_distance()
            == highest_filled(self.buckets(), 128)
        &&& self.reached() <= 128
    }

    /// What the heap holds and has counted.
    pub open spec fn held(&self) -> HeapView {
        HeapView { buckets: self.buckets(), in_search: self.in_search() }
    }

    /// An empty heap that keeps no feature until it is reset with a capacity.
    pub fn new() -> (heap: Self)
        ensures
            heap.wf(),
            heap.cap() == 0,
            heap.size() == 0,
            heap.in_search() == 0,
            heap.reached() == 0,
            heap.search() == 0,
            forall|i: int| 0 <= i < BUCKETS ==> (#[trigger] heap.buckets()[i]).len() == 0,
    {
        FeatureHeap { queue: NearestQueue::new(), in_search: 0, search_distance: 0, search: 0 }
    }

    /// Empties the heap, keeps the memory, and sets the capacity, which is not 0, and the
    /// search feature.
    pub fn reset(&mut self, cap: usize, search: u128)
        requires
            old(self).wf(),
            cap != 0,
        ensures
            final(self).wf(),
            final(self).cap() == cap,
            final(self).size() == 0,
            final(self).in_search() == 0,
            final(self).reached() == 0,
            final(self).search() == search,
            forall|i: int| 0 <= i < BUCKETS ==> (#[trigger] final(self).buckets()[i]).len() == 0,
    {
        self.in_search = 0;
        self.search_distance = 0;
        self.search = search;
        self.queue.reset(cap);
    }

    /// Moves the distance that the search has reached up to `distance`, and counts the
    /// features kept at the distances that come within reach.
    pub fn search_distance(&mut self, distance: u32)
        requires
            old(self).wf(),
            old(self).reached() <= distance <= 128,
        ensures
            final(self).wf(),
            final(self).buckets() == old(self).buckets(),
            final(self).cap() == old(self).cap(),
            final(self).search() == old(self).search(),
            final(self).reached() == distance,
            final(self).in_search() == raised(
                old(self).in_search(),
                held_between(old(self).buckets(), old(self).reached() + 1, distance + 1),
            ),
    {
        let ghost b = self.buckets();
        let ghost from = self.search_distance + 1;
        let start = self.in_search;
        let mut k: u32 = self.search_distance + 1;
        while k <= distance
            invariant
                self.queue.wf(),
                self.buckets() == b,
                self.cap() == old(self).cap(),
                self.search() == old(self).search(),
                self.reached() == old(self).reached(),
                from == old(self).reached() + 1,
                from <= k <= distance + 1,
                distance <= 128,
                start == old(self).in_search(),
                self.in_search() == raised(start, held_between(b, from as int, k as int)),
            decreases distance + 1 - k,
        {
            let n = self.queue.bucket_len(k);
            self.in_search = if self.in_search <= usize::MAX - n {
                self.in_search + n
            } else {
                usize::MAX
            };
            k += 1;
        }
        self.search_distance = distance;
    }

    /// Offers a feature to the heap, and counts it if it is within the distance that the
    /// search has reached. A heap with room takes every feature; a full heap takes a feature
    /// that is nearer than its farthest one, which it drops.
    pub fn add_one(&mut self, feature: u128)
        requires
            old(self).wf(),
        ensures
            final(self).wf(),
            final(self).cap() == old(self).cap(),
            final(self).search() == old(self).search(),
            final(self).reached() == old(self).reached(),
            final(self).in_search() == if hamming(feature, old(self).search()) <= old(self).reached() {
                raised(old(self).in_search(), 1)
            } else {
                old(self).in_search()
            },
            final(self).buckets() == Self::offered(
                old(self).buckets(),
                old(self).cap(),
                old(self).size(),
                old(self).worst_distance(),
                feature,
                hamming(feature, old(self).search()),
            ),
    {
        let distance = count_ones_u128(feature ^ self.search);
        if distance <= self.search_distance {
            if self.in_search < usize::MAX {
                self.in_search += 1;
            }
        }
        self.queue.insert(feature, distance);
    }

    /// The buckets of a heap after a feature at a distance is offered to it.
    pub open spec fn offered(
        buckets: Seq<Seq<u128>>,
        cap: usize,
        size: usize,
        worst: u32,
        feature: u128,
        distance: u32,
    ) -> Seq<Seq<u128>> {
        let pushed = buckets.update(distance as int, buckets[distance as int].push(feature));
        if cap == 0 {
            buckets
        } else if size < cap {
            pushed
        } else if distance < worst {
            pushed.update(worst as int, buckets[worst as int].drop_last())
        } else {
            buckets
        }
    }

    /// Offers a feature to a full heap, and counts it if the heap takes it and it is within
    /// the distance that the search has reached.
    fn add_one_cap(&mut self, feature: u128)
        requires
            old(self).wf(),
            old(self).size() == old(self).cap(),
        ensures
            final(self).wf(),
            final(self).cap() == old(self).cap(),
            final(self).size() == final(self).cap(),
            final(self).search() == old(self).search(),
            final(self).reached() == old(self).reached(),
            final(self).held() == offered_one(
                old(self).held(),
                old(self).cap(),
                old(self).search(),
                old(self).reached(),
                true,
                feature,
            ),
    {
        let distance = count_ones_u128(feature ^ self.search);
        let taken = self.queue.insert(feature, distance);
        if taken && distance <= self.search_distance {
            if self.in_search < usize::MAX {
                self.in_search += 1;
            }
        }
    }

    /// Offers each of the features to the heap, in order. A heap that is full beforehand
    /// counts only the features that it takes.
    pub fn add(&mut self, features: &[u128])
        requires
            old(self).wf(),
        ensures
            final(self).wf(),
            final(self).cap() == old(self).cap(),
            final(self).search() == old(self).search(),
            final(self).reached() == old(self).reached(),
            final(self).held() == offered_all(
                old(self).held(),
                old(self).cap(),
                old(self).search(),
                old(self).reached(),
                old(self).size() == old(self).cap(),
                features@,
                features@.len() as int,
            ),
    {
        let n = features.len();
        let mut i: usize = 0;
        let ghost start = self.held();
        let ghost cap = self.cap();
        let ghost search = self.search();
        let ghost reached = self.reached();
        if self.queue.len() != self.queue.capacity() {
            while i < n
                invariant
                    0 <= i <= n,
                    n == features@.len(),
                    self.wf(),
                    self.cap() == cap,
                    self.search() == search,
                    self.reached() == reached,
                    cap > 0,
                    self.held() == offered_all(start, cap, search, reached, false, features@, i as int),
                decreases n - i,
            {
                self.add_one(features[i]);
                i += 1;
            }
        } else {
            while i < n
                invariant
                    0 <= i <= n,
                    n == features@.len(),
                    self.wf(),
                    self.size() == self.cap(),
                    self.cap() == cap,
                    self.search() == search,
                    self.reached() == reached,
                    self.held() == offered_all(start, cap, search, reached, true, features@, i as int),
                decreases n - i,
            {
                self.add_one_cap(features[i]);
                i += 1;
            }
        }
    }

    /// Whether as many features as the heap keeps have been counted within the distance
    /// that the search has reached.
    pub fn done(&self) -> (enough: bool)
        ensures
            enough == (self.in_search() >= self.cap()),
    {
        self.in_search >= self.queue.capacity()
    }

    /// Fills the front of a slice with the features of the heap, nearest first and the
    /// features of one distance in the order in which they came, as far as the slice and
    /// the heap go. Returns the part of the slice written.
    pub fn fill_slice<'a>(&self, s: &'a mut [u128]) -> (filled: &'a mut [u128])
        requires
            self.wf(),
        ensures
            filled@.len() == if old(s)@.len() <= self.size() {
                old(s)@.len()
            } else {
                self.size() as nat
            },
            forall|k: int, j: int|
                0 <= k < BUCKETS && 0 <= j < self.buckets()[k].len() && total(
                    self.buckets().take(k),
                ) + j < filled@.len() ==> #[trigger] self.buckets()[k][j] == filled@[total(
                    self.buckets().take(k),
                ) + j],
            final(s)@ == final(filled)@ + old(s)@.skip(filled@.len() as int),
    {
        let filled = self.queue.fill_slice(s);
        proof {
            assert forall|k: int, j: int|
                0 <= k < BUCKETS && 0 <= j < self.buckets()[k].len() && total(
                    self.buckets().take(k),
                ) + j < filled@.len() implies #[trigger] self.buckets()[k][j] == filled@[total(
                self.buckets().take(k),
            ) + j] by {
                assert(cloned(
                    self.buckets()[k][j],
                    filled@[total(self.buckets().take(k)) + j],
                ));
            }
        }
        filled
    }
}

impl Default for FeatureHeap {
    fn default() -> (heap: Self)
        ensures
            heap.wf(),
            heap.cap() == 0,
            heap.size() == 0,
            heap.in_search() == 0,
            forall|i: int| 0 <= i < BUCKETS ==> (#[trigger] heap.buckets()[i]).len() == 0,
    {
        FeatureHeap::new()
    }
}

} // verus!
