//! The scratch space of a search: the frontier, the list of the best nodes found so far,
//! and the set of the points met.
use vstd::prelude::*;
use crate::metric::{
    ascending, descending, lemma_rank_gt, lemma_rank_gt_is, lemma_rank_le, lemma_rank_le_is,
    rank_gt, rank_le, Neighbor,
};
use crate::visited::{visited_ids, VisitedSet};

verus! {

/// What a searcher holds, as plain mathematical values.
pub struct SearcherView {
    /// The frontier: nodes still to expand, farthest first, so that the best is last.
    pub candidates: Seq<Neighbor>,
    /// The best nodes found so far, nearest first.
    pub nearest: Seq<Neighbor>,
    /// The ids of the points met so far.
    pub seen: Set<usize>,
}

/// The list `s` after an entry is offered to it under the bound `cap`: the entry goes behind
/// every entry that is as close, and what then lies beyond `cap` entries is dropped.
pub open spec fn keep_best(s: Seq<Neighbor>, cap: nat, n: Neighbor) -> Seq<Neighbor> {
    let pos = rank_le(s, n.distance);
    if pos >= cap {
        s
    } else if s.len() >= cap {
        s.take(cap - 1).insert(pos as int, n)
    } else {
        s.insert(pos as int, n)
    }
}

/// Whether `keep_best` stores the entry.
pub open spec fn is_kept(s: Seq<Neighbor>, cap: nat, n: Neighbor) -> bool {
    rank_le(s, n.distance) < cap
}

/// The frontier `c` after an entry joins it: the entry goes before every entry that is as
/// close, so that of two equally distant entries the older one is taken out first.
pub open spec fn enqueue(c: Seq<Neighbor>, n: Neighbor) -> Seq<Neighbor> {
    c.insert(rank_gt(c, n.distance) as int, n)
}

/// `keep_best` keeps an ascending list ascending and within the bound.
pub proof fn lemma_keep_best(s: Seq<Neighbor>, cap: nat, n: Neighbor)
    requires
        ascending(s),
    ensures
        ascending(keep_best(s, cap, n)),
        s.len() <= cap ==> keep_best(s, cap, n).len() <= cap,
        keep_best(s, cap, n).len() <= s.len() + 1,
        is_kept(s, cap, n) ==> keep_best(s, cap, n)[rank_le(s, n.distance) as int] == n,
        is_kept(s, cap, n) ==> keep_best(s, cap, n).len() >= 1,
        !is_kept(s, cap, n) ==> keep_best(s, cap, n) == s,
        forall|i: int|
            0 <= i < keep_best(s, cap, n).len() ==> #[trigger] keep_best(s, cap, n)[i] == n
                || exists|j: int| 0 <= j < s.len() && s[j] == keep_best(s, cap, n)[i],
{
    lemma_rank_le(s, n.distance);
    let pos = rank_le(s, n.distance) as int;
    let r = keep_best(s, cap, n);
    if pos < cap {
        let t = if s.len() >= cap {
            s.take(cap - 1)
        } else {
            s
        };
        assert(r == t.insert(pos, n));
        assert forall|i: int, j: int| 0 <= i <= j < r.len() implies r[i].distance
            <= r[j].distance by {
            if i < pos {
                assert(r[i] == s[i]);
            } else if i > pos {
                assert(r[i] == s[i - 1]);
            }
            if j < pos {
                assert(r[j] == s[j]);
            } else if j > pos {
                assert(r[j] == s[j - 1]);
            }
        }
        assert forall|i: int| 0 <= i < r.len() implies #[trigger] r[i] == n || exists|j: int|
            0 <= j < s.len() && s[j] == r[i] by {
            if i < pos {
                assert(s[i] == r[i]);
            } else if i > pos {
                assert(s[i - 1] == r[i]);
            }
        }
    }
}

/// `enqueue` keeps a descending list descending.
pub proof fn lemma_enqueue(c: Seq<Neighbor>, n: Neighbor)
    requires
        descending(c),
    ensures
        descending(enqueue(c, n)),
        enqueue(c, n).len() == c.len() + 1,
{
    lemma_rank_gt(c, n.distance);
    let pos = rank_gt(c, n.distance) as int;
    let r = enqueue(c, n);
    assert forall|i: int, j: int| 0 <= i <= j < r.len() implies r[i].distance
        >= r[j].distance by {
        if i < pos {
            assert(r[i] == c[i]);
        } else if i > pos {
            assert(r[i] == c[i - 1]);
        }
        if j < pos {
            assert(r[j] == c[j]);
        } else if j > pos {
            assert(r[j] == c[j - 1]);
        }
    }
}

/// The place of `d` in an ascending list, found by bisection.
fn upper_rank(v: &Vec<Neighbor>, d: u64) -> (p: usize)
    requires
        ascending(v@),
    ensures
        p == rank_le(v@, d),
        p <= v.len(),
{
    let mut lo: usize = 0;
    let mut hi: usize = v.len();
    while lo < hi
        invariant
            0 <= lo <= hi <= v.len(),
            ascending(v@),
            forall|i: int| 0 <= i < lo ==> v@[i].distance <= d,
            forall|i: int| hi <= i < v.len() ==> v@[i].distance > d,
        decreases hi - lo,
    {
        let mid: usize = lo + (hi - lo) / 2;
        if v[mid].distance <= d {
            lo = mid + 1;
        } else {
            hi = mid;
        }
    }
    proof {
        lemma_rank_le_is(v@, d, lo as int);
    }
    lo
}

/// The place of `d` in a descending list, found by bisection.
fn lower_rank(v: &Vec<Neighbor>, d: u64) -> (p: usize)
    requires
        descending(v@),
    ensures
        p == rank_gt(v@, d),
        p <= v.len(),
{
    let mut lo: usize = 0;
    let mut hi: usize = v.len();
    while lo < hi
        invariant
            0 <= lo <= hi <= v.len(),
            descending(v@),
            forall|i: int| 0 <= i < lo ==> v@[i].distance > d,
            forall|i: int| hi <= i < v.len() ==> v@[i].distance <= d,
        decreases hi - lo,
    {
        let mid: usize = lo + (hi - lo) / 2;
        if v[mid].distance > d {
            lo = mid + 1;
        } else {
            hi = mid;
        }
    }
    proof {
        lemma_rank_gt_is(v@, d, lo as int);
    }
    lo
}

/// The scratch space of a search: the frontier, the list of the best nodes found so far and
/// the set of points already met. One searcher serves any number of searches, one after
/// another, and keeps its allocations between them.
#[derive(Debug)]
pub struct Searcher {
    candidates: Vec<Neighbor>,
    nearest: Vec<Neighbor>,
    seen: VisitedSet,
}

impl View for Searcher {
    type V = SearcherView;

    closed spec fn view(&self) -> SearcherView {
        SearcherView {
            candidates: self.candidates@,
            nearest: self.nearest@,
            seen: visited_ids(self.seen),
        }
    }
}

impl Searcher {
    /// The frontier is descending and the list of the best is ascending.
    pub open spec fn wf(self) -> bool {
        ascending(self@.nearest) && descending(self@.candidates)
    }

    /// An empty searcher.
    pub fn new() -> (s: Searcher)
        ensures
            s.wf(),
            s@.candidates.len() == 0,
            s@.nearest.len() == 0,
            s@.seen == Set::<usize>::empty(),
    {
        Searcher { candidates: Vec::new(), nearest: Vec::new(), seen: VisitedSet::new() }
    }

    /// An empty searcher with room for `capacity` entries in each of its parts.
    pub fn with_capacity(capacity: usize) -> (s: Searcher)
        ensures
            s.wf(),
            s@.candidates.len() == 0,
            s@.nearest.len() == 0,
            s@.seen == Set::<usize>::empty(),
    {
        Searcher {
            candidates: Vec::with_capacity(capacity),
            nearest: Vec::with_capacity(capacity),
            seen: VisitedSet::with_capacity(capacity),
        }
    }

    /// Empties the searcher and keeps its allocations.
    pub fn clear(&mut self)
        ensures
            final(self).wf(),
            final(self)@.candidates.len() == 0,
            final(self)@.nearest.len() == 0,
            final(self)@.seen == Set::<usize>::empty(),
    {
        self.candidates.clear();
        self.nearest.clear();
        self.seen.clear();
    }

    /// Takes the `k` best nodes out of the list of the best, nearest first; all of them where
    /// there are fewer.
    pub fn get_top_k_nearest(&mut self, k: usize) -> (top: Vec<Neighbor>)
        requires
            old(self).wf(),
        ensures
            final(self).wf(),
            top@ == old(self)@.nearest.take(
                if k <= old(self)@.nearest.len() {
                    k as int
                } else {
                    old(self)@.nearest.len() as int
                },
            ),
            final(self)@.nearest == old(self)@.nearest.skip(top@.len() as int),
            final(self)@.candidates == old(self)@.candidates,
            final(self)@.seen == old(self)@.seen,
    {
        let n: usize = if k <= self.nearest.len() {
            k
        } else {
            self.nearest.len()
        };
        let mut top: Vec<Neighbor> = Vec::with_capacity(n);
        let mut rest: Vec<Neighbor> = Vec::new();
        let mut i: usize = 0;
        while i < self.nearest.len()
            invariant
                0 <= i <= self.nearest.len(),
                n <= self.nearest.len(),
                *self == *old(self),
                top@ == self.nearest@.take(if i <= n { i as int } else { n as int }),
                rest@ == self.nearest@.subrange(
                    n as int,
                    if i <= n {
                        n as int
                    } else {
                        i as int
                    },
                ),
            decreases self.nearest.len() - i,
        {
            let item = self.nearest[i];
            if i < n {
                top.push(item);
            } else {
                rest.push(item);
            }
            i += 1;
        }
        assert(rest@ == self.nearest@.skip(n as int));
        assert(ascending(rest@)) by {
            assert forall|a: int, b: int| 0 <= a <= b < rest@.len() implies rest@[a].distance
                <= rest@[b].distance by {
                assert(rest@[a] == self.nearest@[a + n]);
                assert(rest@[b] == self.nearest@[b + n]);
            }
        }
        self.nearest = rest;
        top
    }

    /// Whether a node at `distance` belongs among the `max_cap` best: there is room left, or
    /// the node is nearer than the worst node held.
    pub fn check_push(&self, distance: u64, max_cap: usize) -> (fits: bool)
        ensures
            fits == (self@.nearest.len() < max_cap || (self@.nearest.len() > 0
                && self@.nearest.last().distance > distance)),
    {
        let len = self.nearest.len();
        len < max_cap || (len > 0 && self.nearest[len - 1].distance > distance)
    }

    /// The best node found so far.
    pub fn peek_min(&self) -> (best: Option<&Neighbor>)
        ensures
            self@.nearest.len() == 0 ==> best is None,
            self@.nearest.len() > 0 ==> best == Some(&self@.nearest[0]),
    {
        if self.nearest.len() == 0 {
            None
        } else {
            Some(&self.nearest[0])
        }
    }

    /// Adds a node to the frontier and to the list of the best, each at its place by
    /// distance, with no bound on the list.
    pub fn push(&mut self, nbr: Neighbor)
        requires
            old(self).wf(),
        ensures
            final(self).wf(),
            final(self)@.candidates == enqueue(old(self)@.candidates, nbr),
            final(self)@.nearest == old(self)@.nearest.insert(
                rank_le(old(self)@.nearest, nbr.distance) as int,
                nbr,
            ),
            final(self)@.seen == old(self)@.seen,
    {
        proof {
            lemma_enqueue(self.candidates@, nbr);
            lemma_keep_best(self.nearest@, (self.nearest@.len() + 1) as nat, nbr);
            lemma_rank_le(self.nearest@, nbr.distance);
        }
        let c = lower_rank(&self.candidates, nbr.distance);
        self.candidates.insert(c, nbr);
        let p = upper_rank(&self.nearest, nbr.distance);
        self.nearest.insert(p, nbr);
    }

    /// The indices of the best nodes found so far, nearest first.
    pub fn iter_nearest_index(&self) -> (indices: Vec<usize>)
        ensures
            indices@.len() == self@.nearest.len(),
            forall|i: int| 0 <= i < indices@.len() ==> indices@[i] == self@.nearest[i].index,
    {
        let mut indices: Vec<usize> = Vec::with_capacity(self.nearest.len());
        let mut i: usize = 0;
        while i < self.nearest.len()
            invariant
                0 <= i <= self.nearest.len(),
                indices@.len() == i,
                forall|j: int| 0 <= j < i ==> indices@[j] == self.nearest@[j].index,
            decreases self.nearest.len() - i,
        {
            indices.push(self.nearest[i].index);
            i += 1;
        }
        indices
    }

    /// Starts a search at one node: the frontier and the list of the best hold that node
    /// alone, and the point it stands for is the only one met.
    pub(crate) fn start(&mut self, entry: Neighbor, point: usize)
        ensures
            final(self).wf(),
            final(self)@.candidates == seq![entry],
            final(self)@.nearest == seq![entry],
            final(self)@.seen == Set::<usize>::empty().insert(point),
    {
        self.candidates.clear();
        self.nearest.clear();
        self.seen.clear();
        self.candidates.push(entry);
        self.nearest.push(entry);
        self.seen.insert(point);
    }

    /// Restarts the search one layer down from a single node; the points met stay met.
    pub(crate) fn restart(&mut self, entry: Neighbor)
        ensures
            final(self).wf(),
            final(self)@.candidates == seq![entry],
            final(self)@.nearest == seq![entry],
            final(self)@.seen == old(self)@.seen,
    {
        self.candidates.clear();
        self.nearest.clear();
        self.candidates.push(entry);
        self.nearest.push(entry);
    }

    /// Takes the nearest node off the frontier.
    pub(crate) fn pop_candidate(&mut self) -> (best: Option<Neighbor>)
        requires
            old(self).wf(),
        ensures
            final(self).wf(),
            old(self)@.candidates.len() == 0 ==> best is None && final(self)@ == old(self)@,
            old(self)@.candidates.len() > 0 ==> best == Some(old(self)@.candidates.last())
                && final(self)@ == (SearcherView {
                candidates: old(self)@.candidates.drop_last(),
                ..old(self)@
            }),
    {
        let ghost before = self.candidates@;
        let best = self.candidates.pop();
        proof {
            if before.len() > 0 {
                assert(self.candidates@ == before.drop_last());
                assert forall|i: int, j: int|
                    0 <= i <= j < self.candidates@.len() implies self.candidates@[i].distance
                    >= self.candidates@[j].distance by {
                    assert(self.candidates@[i] == before[i]);
                    assert(self.candidates@[j] == before[j]);
                }
            }
        }
        best
    }

    /// Marks a point as met, and tells whether it was not met before.
    pub(crate) fn mark_seen(&mut self, point: usize) -> (fresh: bool)
        requires
            old(self).wf(),
        ensures
            final(self).wf(),
            fresh == !old(self)@.seen.contains(point),
            final(self)@ == (SearcherView {
                seen: old(self)@.seen.insert(point),
                ..old(self)@
            }),
    {
        self.seen.insert(point)
    }

    /// Offers a node to the list of the `cap` best and, where the list takes it, adds it to
    /// the frontier as well.
    pub(crate) fn offer(&mut self, nbr: Neighbor, cap: usize) -> (kept: bool)
        requires
            old(self).wf(),
        ensures
            final(self).wf(),
            kept == is_kept(old(self)@.nearest, cap as nat, nbr),
            final(self)@.nearest == keep_best(old(self)@.nearest, cap as nat, nbr),
            final(self)@.candidates == if kept {
                enqueue(old(self)@.candidates, nbr)
            } else {
                old(self)@.candidates
            },
            final(self)@.seen == old(self)@.seen,
    {
        proof {
            lemma_keep_best(self.nearest@, cap as nat, nbr);
            lemma_enqueue(self.candidates@, nbr);
            lemma_rank_le(self.nearest@, nbr.distance);
        }
        let p = upper_rank(&self.nearest, nbr.distance);
        if p >= cap {
            return false;
        }
        if self.nearest.len() >= cap {
            let ghost before = self.nearest@;
            self.nearest.truncate(cap - 1);
            proof {
                assert(self.nearest@ == before.take(cap - 1));
                assert forall|i: int, j: int|
                    0 <= i <= j < self.nearest@.len() implies self.nearest@[i].distance
                    <= self.nearest@[j].distance by {
                    assert(self.nearest@[i] == before[i]);
                    assert(self.nearest@[j] == before[j]);
                }
            }
        }
        self.nearest.insert(p, nbr);
        let c = lower_rank(&self.candidates, nbr.distance);
        self.candidates.insert(c, nbr);
        true
    }

    /// How many nodes the list of the best holds.
    pub(crate) fn nearest_len(&self) -> (n: usize)
        ensures
            n == self@.nearest.len(),
    {
        self.nearest.len()
    }

    /// The `i`-th best node found so far.
    pub(crate) fn nearest_at(&self, i: usize) -> (n: Neighbor)
        requires
            i < self@.nearest.len(),
        ensures
            n == self@.nearest[i as int],
    {
        self.nearest[i]
    }
}

impl Default for Searcher {
    fn default() -> (s: Searcher)
        ensures
            s.wf(),
            s@.candidates.len() == 0,
            s@.nearest.len() == 0,
            s@.seen == Set::<usize>::empty(),
    {
        Searcher::new()
    }
}

impl Clone for Searcher {
    fn clone(&self) -> (copy: Searcher)
        ensures
            copy@ == self@,
    {
        let copy = Searcher {
            candidates: self.candidates.clone(),
            nearest: self.nearest.clone(),
            seen: self.seen.clone(),
        };
        assert(copy@.candidates =~= self@.candidates);
        assert(copy@.nearest =~= self@.nearest);
        copy
    }
}

} // verus!
