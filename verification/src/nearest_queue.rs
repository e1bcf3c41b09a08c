//! A bounded collection of the nearest items found so far, for searches in a space whose
//! distances run from 0 to 128. It has one bucket for each distance, so that an item is put
//! in, and the farthest item is found, without any comparison of items.
use vstd::prelude::*;
use vstd::pervasive::cloned;
use crate::candidate_queue::{clear_buckets, empty_buckets, BUCKETS};

verus! {

/// How many items the buckets hold together.
pub open spec fn total<T>(buckets: Seq<Seq<T>>) -> nat
    decreases buckets.len(),
{
    if buckets.len() == 0 {
        0
    } else {
        total(buckets.drop_last()) + buckets.last().len()
    }
}

/// The highest bucket at or below `from` that holds an item; bucket 0 if none does.
pub open spec fn highest_filled<T>(buckets: Seq<Seq<T>>, from: int) -> int
    decreases from,
{
    if from <= 0 || buckets[from].len() > 0 {
        from
    } else {
        highest_filled(buckets, from - 1)
    }
}

/// `highest_filled` is a bucket at or below `from`, and no bucket between the two holds an
/// item.
pub proof fn lemma_highest_filled<T>(buckets: Seq<Seq<T>>, from: int)
    requires
        0 <= from < buckets.len(),
    ensures
        0 <= highest_filled(buckets, from) <= from,
        forall|i: int| highest_filled(buckets, from) < i <= from ==> buckets[i].len() == 0,
        highest_filled(buckets, from) > 0 ==> buckets[highest_filled(buckets, from)].len() > 0,
    decreases from,
{
    if from > 0 && buckets[from].len() == 0 {
        lemma_highest_filled(buckets, from - 1);
    }
}

/// Replacing one bucket changes the number of items by the difference of the two buckets.
pub proof fn lemma_total_update<T>(buckets: Seq<Seq<T>>, i: int, bucket: Seq<T>)
    requires
        0 <= i < buckets.len(),
    ensures
        total(buckets.update(i, bucket)) == total(buckets) - buckets[i].len() + bucket.len(),
        total(buckets) >= buckets[i].len(),
    decreases buckets.len(),
{
    let u = buckets.update(i, bucket);
    if i == buckets.len() - 1 {
        assert(u.drop_last() =~= buckets.drop_last());
    } else {
        lemma_total_update(buckets.drop_last(), i, bucket);
        assert(u.drop_last() =~= buckets.drop_last().update(i, bucket));
    }
}

/// Buckets that hold an item have a highest bucket that holds one, and buckets that hold
/// none hold no items.
pub proof fn lemma_total_filled<T>(buckets: Seq<Seq<T>>)
    requires
        buckets.len() > 0,
    ensures
        total(buckets) > 0 ==> buckets[highest_filled(buckets, buckets.len() - 1)].len() > 0,
        (forall|i: int| 0 <= i < buckets.len() ==> buckets[i].len() == 0) ==> total(buckets) == 0,
    decreases buckets.len(),
{
    let last = buckets.len() - 1;
    if buckets.len() > 1 {
        let rest = buckets.drop_last();
        lemma_total_filled(rest);
        if buckets[last].len() == 0 {
            assert(highest_filled(buckets, last) == highest_filled(buckets, last - 1));
            lemma_same_highest(buckets, rest, last - 1);
            lemma_highest_filled(rest, last - 1);
            let h = highest_filled(rest, last - 1);
            assert(rest[h] == buckets[h]);
            assert(total(buckets) == total(rest));
        }
        if forall|i: int| 0 <= i < buckets.len() ==> buckets[i].len() == 0 {
            assert forall|i: int| 0 <= i < rest.len() implies rest[i].len() == 0 by {
                assert(rest[i] == buckets[i]);
            }
        }
    } else {
        assert(total(buckets.drop_last()) == 0);
    }
}

/// The highest bucket that holds an item is the same in two lists of buckets that agree up
/// to `from`.
pub proof fn lemma_same_highest<T>(a: Seq<Seq<T>>, b: Seq<Seq<T>>, from: int)
    requires
        0 <= from < a.len(),
        from < b.len(),
        forall|i: int| 0 <= i <= from ==> a[i] == b[i],
    ensures
        highest_filled(a, from) == highest_filled(b, from),
    decreases from,
{
    if from > 0 && a[from].len() == 0 {
        lemma_same_highest(a, b, from - 1);
    }
}

/// Where no bucket above `from` holds an item, the highest bucket that holds one is found
/// from `from` as well as from the top.
pub proof fn lemma_highest_from<T>(buckets: Seq<Seq<T>>, from: int, top: int)
    requires
        0 <= from <= top < buckets.len(),
        forall|i: int| from < i <= top ==> buckets[i].len() == 0,
    ensures
        highest_filled(buckets, top) == highest_filled(buckets, from),
    decreases top - from,
{
    if from < top {
        lemma_highest_from(buckets, from, top - 1);
    }
}

/// The buckets after the farthest item is taken out `count` times: each time, the last
/// item of the highest bucket that holds one.
pub open spec fn trimmed<T>(buckets: Seq<Seq<T>>, count: nat) -> Seq<Seq<T>>
    decreases count,
{
    if count == 0 {
        buckets
    } else {
        let h = highest_filled(buckets, 128);
        trimmed(buckets.update(h, buckets[h].drop_last()), (count - 1) as nat)
    }
}

/// The queue: up to `cap` items, each with a distance from 0 to 128.
pub struct NearestQueue<T> {
    cap: usize,
    size: usize,
    worst: u32,
    distances: Vec<Vec<T>>,
}

impl<T> NearestQueue<T> {
    /// The items of each bucket, in the order in which they came.
    pub closed spec fn buckets(&self) -> Seq<Seq<T>> {
        Seq::new(self.distances@.len(), |i: int| self.distances@[i]@)
    }

    /// The greatest number of items that the queue keeps.
    pub closed spec fn cap(&self) -> usize {
        self.cap
    }

    /// The number of items in the queue.
    pub closed spec fn size(&self) -> usize {
        self.size
    }

    /// The distance that an item has to beat to get into a full queue.
    pub closed spec fn worst_distance(&self) -> u32 {
        self.worst
    }

    /// The queue counts its items rightly and holds no more than it may. While it has room
    /// its worst distance is 128; once it is full, that is the distance of its farthest
    /// item.
    pub open spec fn wf(&self) -> bool {
        &&& self.buckets().len() == BUCKETS
        &&& self.size() == total(self.buckets())
        &&& self.size() <= self.cap()
        &&& self.worst_distance() <= 128
        &&& self.size() < self.cap() ==> self.worst_distance() == 128
        &&& self.size() == self.cap() && self.cap() > 0 ==> self.worst_distance()
            == highest_filled(self.buckets(), 128)
    }

    /// An empty queue that keeps no item until it is given a capacity.
    pub fn new() -> (queue: Self)
        ensures
            queue.wf(),
            queue.cap() == 0,
            queue.size() == 0,
            forall|i: int| 0 <= i < BUCKETS ==> (#[trigger] queue.buckets()[i]).len() == 0,
    {
        let queue = NearestQueue { cap: 0, size: 0, worst: 128, distances: empty_buckets() };
        proof {
            lemma_total_filled(queue.buckets());
        }
        queue
    }

    /// Empties the queue, keeps the memory and sets the capacity, which is not 0.
    pub fn reset(&mut self, cap: usize)
        requires
            old(self).buckets().len() == BUCKETS,
            cap != 0,
        ensures
            final(self).wf(),
            final(self).cap() == cap,
            final(self).size() == 0,
            forall|i: int| 0 <= i < BUCKETS ==> (#[trigger] final(self).buckets()[i]).len() == 0,
    {
        self.cap = cap;
        self.size = 0;
        self.worst = 128;
        clear_buckets(&mut self.distances);
        proof {
            lemma_total_filled(self.buckets());
        }
    }

    /// The number of items in the queue.
    pub fn len(&self) -> (n: usize)
        ensures
            n == self.size(),
    {
        self.size
    }

    /// The greatest number of items that the queue keeps.
    pub fn capacity(&self) -> (n: usize)
        ensures
            n == self.cap(),
    {
        self.cap
    }

    /// The number of items at a distance, which is at most 128.
    pub fn bucket_len(&self, distance: u32) -> (n: usize)
        requires
            self.buckets().len() == BUCKETS,
            distance <= 128,
        ensures
            n == self.buckets()[distance as int].len(),
    {
        proof {
            assert(self.buckets()[distance as int] == self.distances@[distance as int]@);
        }
        self.distances[distance as usize].len()
    }

    /// Takes the farthest items out until `size` items are left; a queue that holds no
    /// more than `size` items stays as it is. The queue has room afterwards.
    pub fn set_size(&mut self, size: usize)
        requires
            old(self).wf(),
        ensures
            final(self).buckets().len() == BUCKETS,
            final(self).cap() == old(self).cap(),
            size >= old(self).size() ==> final(self).buckets() == old(self).buckets() && final(self).size() == old(self).size() && final(self).worst_distance() == old(self).worst_distance(),
            size < old(self).size() ==> final(self).buckets() == trimmed(
                old(self).buckets(),
                (old(self).size() - size) as nat,
            ) && final(self).size() == size && final(self).worst_distance() == 128,
            final(self).size() == total(final(self).buckets()),
            size < old(self).size() ==> final(self).wf(),
            size >= old(self).size() ==> final(self).wf(),
    {
        if size >= self.size {
            return ;
        }
        let ghost before = self.buckets();
        let ghost goal = (self.size - size) as nat;
        self.worst = 128;
        self.update_worst();
        let mut left: usize = self.size - size;
        while left > 0
            invariant
                self.buckets().len() == BUCKETS,
                self.cap() == old(self).cap(),
                self.size() == old(self).size(),
                size < old(self).size(),
                total(self.buckets()) == size + left,
                self.worst_distance() == highest_filled(self.buckets(), 128),
                trimmed(self.buckets(), left as nat) == trimmed(before, goal),
            decreases left,
        {
            let ghost cur = self.buckets();
            let ghost worst = self.worst as int;
            proof {
                lemma_highest_filled(cur, 128);
                lemma_total_filled(cur);
                assert(cur[worst].len() > 0);
            }
            self.remove_worst();
            proof {
                let after = self.buckets();
                lemma_total_update(cur, worst, cur[worst].drop_last());
                assert forall|i: int| worst < i <= 128 implies after[i].len() == 0 by {
                    assert(after[i] == cur[i]);
                }
                lemma_highest_from(after, worst, 128);
            }
            left -= 1;
        }
        self.size = size;
        self.worst = 128;
    }

    /// Sets the capacity. A queue that holds more items gives up its farthest ones.
    pub fn set_capacity(&mut self, cap: usize)
        requires
            old(self).wf(),
        ensures
            final(self).wf(),
            final(self).cap() == cap,
            cap >= old(self).size() ==> final(self).buckets() == old(self).buckets(),
            cap < old(self).size() ==> final(self).buckets() == trimmed(
                old(self).buckets(),
                (old(self).size() - cap) as nat,
            ),
    {
        self.set_size(cap);
        self.cap = cap;
        self.worst = 128;
        if self.size == cap && cap > 0 {
            self.update_worst();
        }
    }

    /// The distance that an item has to beat to get into the queue once the queue is full:
    /// 128 while the queue has room, and the distance of its farthest item after that.
    pub fn worst(&self) -> (distance: u32)
        ensures
            distance == self.worst_distance(),
    {
        self.worst
    }

    /// Moves the worst distance down to the highest bucket, at or below it, that holds an
    /// item.
    fn update_worst(&mut self)
        requires
            old(self).buckets().len() == BUCKETS,
            old(self).worst_distance() <= 128,
        ensures
            final(self).buckets() == old(self).buckets(),
            final(self).cap() == old(self).cap(),
            final(self).size() == old(self).size(),
            final(self).worst_distance() == highest_filled(
                old(self).buckets(),
                old(self).worst_distance() as int,
            ),
            final(self).worst_distance() <= old(self).worst_distance(),
    {
        while self.worst > 0 && self.distances[self.worst as usize].len() == 0
            invariant
                self.buckets() == old(self).buckets(),
                self.buckets().len() == BUCKETS,
                self.cap() == old(self).cap(),
                self.size() == old(self).size(),
                self.worst_distance() <= old(self).worst_distance(),
                old(self).worst_distance() <= 128,
                highest_filled(self.buckets(), self.worst_distance() as int) == highest_filled(
                    old(self).buckets(),
                    old(self).worst_distance() as int,
                ),
            decreases self.worst,
        {
            proof {
                assert(self.buckets()[self.worst as int].len() == 0);
            }
            self.worst = self.worst - 1;
        }
        proof {
            assert(self.buckets()[self.worst as int] == self.distances@[self.worst as int]@);
        }
    }

    /// Takes the last item out of the bucket at the worst distance, where there is one,
    /// and moves the worst distance down to the highest bucket that still holds an item.
    fn remove_worst(&mut self)
        requires
            old(self).buckets().len() == BUCKETS,
            old(self).worst_distance() <= 128,
        ensures
            final(self).buckets() == old(self).buckets().update(
                old(self).worst_distance() as int,
                if old(self).buckets()[old(self).worst_distance() as int].len() > 0 {
                    old(self).buckets()[old(self).worst_distance() as int].drop_last()
                } else {
                    old(self).buckets()[old(self).worst_distance() as int]
                },
            ),
            final(self).cap() == old(self).cap(),
            final(self).size() == old(self).size(),
            final(self).worst_distance() == highest_filled(
                final(self).buckets(),
                old(self).worst_distance() as int,
            ),
            final(self).worst_distance() <= old(self).worst_distance(),
    {
        let ghost before = self.buckets();
        let worst = self.worst as usize;
        proof {
            assert(before[worst as int] == self.distances@[worst as int]@);
        }
        let _ = self.distances[worst].pop();
        proof {
            assert(self.buckets() =~= before.update(
                worst as int,
                if before[worst as int].len() > 0 {
                    before[worst as int].drop_last()
                } else {
                    before[worst as int]
                },
            ));
        }
        self.update_worst();
    }

    /// Offers an item at a distance of at most 128 to the queue, and tells whether the
    /// queue took it. A queue with room takes every item. A full queue takes an item that
    /// is nearer than its worst distance, and drops the item that came last among its
    /// farthest ones. A queue of capacity 0 takes nothing.
    pub fn insert(&mut self, item: T, distance: u32) -> (taken: bool)
        requires
            old(self).wf(),
            distance <= 128,
        ensures
            final(self).wf(),
            final(self).cap() == old(self).cap(),
            taken == (old(self).cap() > 0 && (old(self).size() < old(self).cap() || distance
                < old(self).worst_distance())),
            final(self).size() == if taken && old(self).size() < old(self).cap() {
                (old(self).size() + 1) as usize
            } else {
                old(self).size()
            },
            !taken ==> final(self).buckets() == old(self).buckets(),
            taken && old(self).size() < old(self).cap() ==> final(self).buckets() == old(self).buckets().update(distance as int, old(self).buckets()[distance as int].push(item)),
            taken && old(self).size() == old(self).cap() ==> final(self).buckets() == old(self).buckets().update(
                distance as int,
                old(self).buckets()[distance as int].push(item),
            ).update(
                old(self).worst_distance() as int,
                old(self).buckets()[old(self).worst_distance() as int].drop_last(),
            ),
    {
        let ghost before = self.buckets();
        let ghost pushed = before.update(distance as int, before[distance as int].push(item));
        if self.cap == 0 {
            return false;
        }
        if self.size != self.cap {
            self.distances[distance as usize].push(item);
            self.size += 1;
            proof {
                assert(self.buckets() =~= pushed);
                lemma_total_update(before, distance as int, before[distance as int].push(item));
            }
            if self.size == self.cap {
                self.update_worst();
            }
            true
        } else if distance < self.worst {
            let ghost worst = self.worst as int;
            proof {
                lemma_highest_filled(before, 128);
                lemma_total_filled(before);
                assert(before[worst].len() > 0);
            }
            self.distances[distance as usize].push(item);
            proof {
                assert(self.buckets() =~= pushed);
                lemma_total_update(before, distance as int, before[distance as int].push(item));
            }
            self.remove_worst();
            proof {
                let after = self.buckets();
                assert(pushed[worst] == before[worst]);
                lemma_total_update(pushed, worst, before[worst].drop_last());
                assert forall|i: int| worst < i <= 128 implies after[i].len() == 0 by {
                    assert(after[i] == before[i]);
                }
                lemma_highest_from(after, worst, 128);
            }
            true
        } else {
            false
        }
    }

    /// Fills the front of a slice with copies of the items of the queue, nearest first and
    /// the items of one distance in the order in which they came, as far as the slice and
    /// the queue go. Returns the part of the slice written.
    pub fn fill_slice<'a>(&self, s: &'a mut [T]) -> (filled: &'a mut [T]) where T: Clone
        requires
            self.wf(),
        ensures
            filled@.len() == if old(s)@.len() <= self.size() {
                old(s)@.len()
            } else {
                self.size() as nat
            },
            forall|k: int, j: int|
                0 <= k < BUCKETS && 0 <= j < self.buckets()[k].len() && total(
                    self.buckets().take(k),
                ) + j < filled@.len() ==> cloned(
                    #[trigger] self.buckets()[k][j],
                    filled@[total(self.buckets().take(k)) + j],
                ),
            final(s)@ == final(filled)@ + old(s)@.skip(filled@.len() as int),
    {
        let ghost before = s@;
        let ghost b = self.buckets();
        let total_fill: usize = if s.len() <= self.size {
            s.len()
        } else {
            self.size
        };
        let mut ix: usize = 0;
        let mut k: usize = 0;
        proof {
            assert(b.take(0) =~= Seq::<Seq<T>>::empty());
            assert(b.take(BUCKETS as int) =~= b);
        }
        while k < BUCKETS && ix < total_fill
            invariant
                0 <= k <= BUCKETS,
                b == self.buckets(),
                b.len() == BUCKETS,
                total_fill <= s@.len(),
                total_fill <= total(b),
                s@.len() == before.len(),
                ix <= total_fill,
                ix == total_fill || ix == total(b.take(k as int)),
                ix <= total(b.take(k as int)),
                forall|kk: int, j: int|
                    0 <= kk < k && 0 <= j < b[kk].len() && total(b.take(kk)) + j < ix ==> cloned(
                        #[trigger] b[kk][j],
                        s@[total(b.take(kk)) + j],
                    ),
                forall|i: int| total_fill <= i < s@.len() ==> s@[i] == before[i],
            decreases BUCKETS - k,
        {
            let bucket = &self.distances[k];
            let ghost base = total(b.take(k as int));
            proof {
                assert(b[k as int] == bucket@);
                assert(b.take(k + 1).drop_last() =~= b.take(k as int));
                assert(b.take(k + 1).last() == b[k as int]);
            }
            let mut j: usize = 0;
            while j < bucket.len() && ix < total_fill
                invariant
                    0 <= j <= bucket@.len(),
                    k < BUCKETS,
                    b == self.buckets(),
                    b.len() == BUCKETS,
                    bucket@ == b[k as int],
                    base == total(b.take(k as int)),
                    total_fill <= s@.len(),
                    s@.len() == before.len(),
                    ix <= total_fill,
                    ix == base + j,
                    forall|kk: int, jj: int|
                        0 <= kk < k && 0 <= jj < b[kk].len() && total(b.take(kk)) + jj < ix
                            ==> cloned(#[trigger] b[kk][jj], s@[total(b.take(kk)) + jj]),
                    forall|jj: int| 0 <= jj < j ==> cloned(#[trigger] b[k as int][jj], s@[base + jj]),
                    forall|i: int| total_fill <= i < s@.len() ==> s@[i] == before[i],
                decreases bucket@.len() - j,
            {
                let ghost prev = s@;
                let copy = bucket[j].clone();
                s[ix] = copy;
                proof {
                    assert forall|kk: int, jj: int|
                        0 <= kk < k && 0 <= jj < b[kk].len() && total(b.take(kk)) + jj < ix + 1
                        implies cloned(#[trigger] b[kk][jj], s@[total(b.take(kk)) + jj]) by {
                        lemma_total_take(b, kk, k as int);
                        assert(s@[total(b.take(kk)) + jj] == prev[total(b.take(kk)) + jj]);
                    }
                    assert forall|jj: int| 0 <= jj < j + 1 implies cloned(
                        #[trigger] b[k as int][jj],
                        s@[base + jj],
                    ) by {
                        if jj < j {
                            assert(s@[base + jj] == prev[base + jj]);
                        }
                    }
                }
                ix += 1;
                j += 1;
            }
            proof {
                assert forall|kk: int, jj: int|
                    0 <= kk < k + 1 && 0 <= jj < b[kk].len() && total(b.take(kk)) + jj < ix
                    implies cloned(#[trigger] b[kk][jj], s@[total(b.take(kk)) + jj]) by {
                    if kk == k {
                        assert(jj < j);
                    }
                }
            }
            k += 1;
        }
        assert(ix == total_fill);
        let ghost written = s@;
        let (filled, rest) = s.split_at_mut(total_fill);
        proof {
            assert(rest@ =~= before.skip(total_fill as int));
            assert(filled@ =~= written.take(total_fill as int));
            assert forall|kk: int, j: int|
                0 <= kk < BUCKETS && 0 <= j < b[kk].len() && total(b.take(kk)) + j
                    < filled@.len() implies cloned(
                #[trigger] b[kk][j],
                filled@[total(b.take(kk)) + j],
            ) by {
                if kk >= k {
                    lemma_total_take(b, k as int, kk);
                }
                assert(filled@[total(b.take(kk)) + j] == written[total(b.take(kk)) + j]);
            }
        }
        filled
    }
}

/// The buckets up to a place hold no more items than the buckets up to a later place.
pub proof fn lemma_total_take<T>(buckets: Seq<Seq<T>>, a: int, b: int)
    requires
        0 <= a <= buckets.len(),
        0 <= b <= buckets.len(),
    ensures
        a <= b ==> total(buckets.take(a)) <= total(buckets.take(b)),
        a < b ==> total(buckets.take(a)) + buckets[a].len() <= total(buckets.take(b)),
    decreases b,
{
    if a < b {
        assert(buckets.take(b).drop_last() =~= buckets.take(b - 1));
        assert(buckets.take(b).last() == buckets[b - 1]);
        lemma_total_take(buckets, a, b - 1);
    }
}

impl<T> Default for NearestQueue<T> {
    fn default() -> (queue: Self)
        ensures
            queue.wf(),
            queue.cap() == 0,
            queue.size() == 0,
            forall|i: int| 0 <= i < BUCKETS ==> (#[trigger] queue.buckets()[i]).len() == 0,
    {
        NearestQueue::new()
    }
}

} // verus!
