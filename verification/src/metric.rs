//! Metrics, search results, and lists of results in the order of their distances.
use vstd::prelude::*;

verus! {

/// A distance function on points of type `T`.
///
/// Distances are unsigned integers that order as the distances themselves do; a metric over
/// non-negative floats hands back the bits of the float. The index never looks into a point:
/// it only compares the numbers that `distance` returns. An implementation is expected to be
/// symmetric and to give every pair `(x, x)` the same, smallest value; the index stays
/// well formed whether or not it does.
///
/// The contracts of the index speak of distances through `dist`, which exists for them
/// alone and is never run. `distance` has to be a function of its arguments, and `dist` is
/// that function: an implementation in code that is not verified writes `dist` as a call of
/// `distance`.
pub trait Metric<T> {
    /// The distance between `a` and `b`, as a mathematical function of the two points.
    spec fn dist(&self, a: &T, b: &T) -> u64;

    /// Computes the distance between `a` and `b`.
    fn distance(&self, a: &T, b: &T) -> (d: u64)
        ensures
            d == self.dist(a, b),
    ;
}

/// A search result: a position in the searched layer and its distance from the query.
#[derive(Copy, Clone, Debug, PartialEq, Eq, PartialOrd, Ord, Hash)]
pub struct Neighbor {
    /// Index of the neighbor in the searched layer (the point id, in the zero layer).
    pub index: usize,
    /// The distance of the neighbor from the query.
    pub distance: u64,
}

/// The distances of a list of neighbors never decrease from front to back.
pub open spec fn ascending(s: Seq<Neighbor>) -> bool {
    forall|i: int, j: int| 0 <= i <= j < s.len() ==> s[i].distance <= s[j].distance
}

/// The distances of a list of neighbors never increase from front to back.
pub open spec fn descending(s: Seq<Neighbor>) -> bool {
    forall|i: int, j: int| 0 <= i <= j < s.len() ==> s[i].distance >= s[j].distance
}

/// No two entries of the list name the same index.
pub open spec fn distinct_indices(s: Seq<Neighbor>) -> bool {
    forall|i: int, j: int| 0 <= i < j < s.len() ==> s[i].index != s[j].index
}

/// How many leading entries of an ascending list are at most `d` away: the place where an
/// entry at distance `d` goes so that it comes after every entry that is as close.
pub open spec fn rank_le(s: Seq<Neighbor>, d: u64) -> nat
    decreases s.len(),
{
    if s.len() == 0 || s[0].distance > d {
        0
    } else {
        1 + rank_le(s.drop_first(), d)
    }
}

/// How many leading entries of a descending list are farther than `d` away.
pub open spec fn rank_gt(s: Seq<Neighbor>, d: u64) -> nat
    decreases s.len(),
{
    if s.len() == 0 || s[0].distance <= d {
        0
    } else {
        1 + rank_gt(s.drop_first(), d)
    }
}

/// `rank_le` lies within the list, has only entries at most `d` away before it, and, in an
/// ascending list, only farther entries from it on.
pub proof fn lemma_rank_le(s: Seq<Neighbor>, d: u64)
    ensures
        rank_le(s, d) <= s.len(),
        forall|i: int| 0 <= i < rank_le(s, d) ==> s[i].distance <= d,
        rank_le(s, d) < s.len() ==> s[rank_le(s, d) as int].distance > d,
        ascending(s) ==> forall|i: int| rank_le(s, d) <= i < s.len() ==> s[i].distance > d,
    decreases s.len(),
{
    if s.len() == 0 || s[0].distance > d {
    } else {
        let t = s.drop_first();
        lemma_rank_le(t, d);
        assert forall|i: int| 0 <= i < rank_le(s, d) implies s[i].distance <= d by {
            if i > 0 {
                assert(s[i] == t[i - 1]);
            }
        }
        if rank_le(s, d) < s.len() {
            assert(s[rank_le(s, d) as int] == t[rank_le(t, d) as int]);
        }
        if ascending(s) {
            assert forall|i: int, j: int| 0 <= i <= j < t.len() implies t[i].distance
                <= t[j].distance by {
                assert(t[i] == s[i + 1] && t[j] == s[j + 1]);
            }
            assert forall|i: int| rank_le(s, d) <= i < s.len() implies s[i].distance > d by {
                assert(s[i] == t[i - 1]);
            }
        }
    }
}

/// `rank_gt` lies within the list, has only entries farther than `d` before it, and, in a
/// descending list, only entries at most `d` away from it on.
pub proof fn lemma_rank_gt(s: Seq<Neighbor>, d: u64)
    ensures
        rank_gt(s, d) <= s.len(),
        forall|i: int| 0 <= i < rank_gt(s, d) ==> s[i].distance > d,
        rank_gt(s, d) < s.len() ==> s[rank_gt(s, d) as int].distance <= d,
        descending(s) ==> forall|i: int| rank_gt(s, d) <= i < s.len() ==> s[i].distance <= d,
    decreases s.len(),
{
    if s.len() == 0 || s[0].distance <= d {
    } else {
        let t = s.drop_first();
        lemma_rank_gt(t, d);
        assert forall|i: int| 0 <= i < rank_gt(s, d) implies s[i].distance > d by {
            if i > 0 {
                assert(s[i] == t[i - 1]);
            }
        }
        if rank_gt(s, d) < s.len() {
            assert(s[rank_gt(s, d) as int] == t[rank_gt(t, d) as int]);
        }
        if descending(s) {
            assert forall|i: int, j: int| 0 <= i <= j < t.len() implies t[i].distance
                >= t[j].distance by {
                assert(t[i] == s[i + 1] && t[j] == s[j + 1]);
            }
            assert forall|i: int| rank_gt(s, d) <= i < s.len() implies s[i].distance <= d by {
                assert(s[i] == t[i - 1]);
            }
        }
    }
}

/// The rank of `d` is the one place in `s` with only entries at most `d` before it and a
/// farther entry, or the end, at it.
pub proof fn lemma_rank_le_is(s: Seq<Neighbor>, d: u64, p: int)
    requires
        0 <= p <= s.len(),
        forall|i: int| 0 <= i < p ==> s[i].distance <= d,
        p < s.len() ==> s[p].distance > d,
    ensures
        rank_le(s, d) == p,
    decreases s.len(),
{
    if s.len() == 0 || s[0].distance > d {
        if p > 0 {
            assert(s[0].distance <= d);
        }
    } else {
        let t = s.drop_first();
        assert(p > 0);
        assert forall|i: int| 0 <= i < p - 1 implies t[i].distance <= d by {
            assert(t[i] == s[i + 1]);
        }
        if p - 1 < t.len() {
            assert(t[p - 1] == s[p]);
        }
        lemma_rank_le_is(t, d, p - 1);
    }
}

/// The counterpart of `lemma_rank_le_is` for descending lists.
pub proof fn lemma_rank_gt_is(s: Seq<Neighbor>, d: u64, p: int)
    requires
        0 <= p <= s.len(),
        forall|i: int| 0 <= i < p ==> s[i].distance > d,
        p < s.len() ==> s[p].distance <= d,
    ensures
        rank_gt(s, d) == p,
    decreases s.len(),
{
    if s.len() == 0 || s[0].distance <= d {
        if p > 0 {
            assert(s[0].distance > d);
        }
    } else {
        let t = s.drop_first();
        assert(p > 0);
        assert forall|i: int| 0 <= i < p - 1 implies t[i].distance > d by {
            assert(t[i] == s[i + 1]);
        }
        if p - 1 < t.len() {
            assert(t[p - 1] == s[p]);
        }
        lemma_rank_gt_is(t, d, p - 1);
    }
}

} // verus!
