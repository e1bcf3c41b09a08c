//! Lists of `(distance, node)` pairs in the order of their distances: a frontier from which
//! the nearest pair is taken first, and a list of the nearest pairs found so far with a
//! bound on its length.
use vstd::prelude::*;

verus! {

/// The distances of a list of `(distance, node)` pairs never decrease from front to back.
pub open spec fn sorted(s: Seq<(u32, u32)>) -> bool {
    forall|i: int, j: int| 0 <= i <= j < s.len() ==> s[i].0 <= s[j].0
}

/// The distances of a list of `(distance, node)` pairs never increase from front to back.
pub open spec fn falling(s: Seq<(u32, u32)>) -> bool {
    forall|i: int, j: int| 0 <= i <= j < s.len() ==> s[i].0 >= s[j].0
}

/// How many leading pairs of the list are at most `d` away: the place where a pair at
/// distance `d` goes in a sorted list so that it comes behind every pair that is as near.
pub open spec fn place(s: Seq<(u32, u32)>, d: u32) -> nat
    decreases s.len(),
{
    if s.len() == 0 || s[0].0 > d {
        0
    } else {
        1 + place(s.drop_first(), d)
    }
}

/// How many leading pairs of the list are farther than `d` away: the place where a pair at
/// distance `d` goes in a falling list so that it comes before every pair that is as near.
pub open spec fn place_falling(s: Seq<(u32, u32)>, d: u32) -> nat
    decreases s.len(),
{
    if s.len() == 0 || s[0].0 <= d {
        0
    } else {
        1 + place_falling(s.drop_first(), d)
    }
}

/// `place` lies within the list, has only pairs at most `d` away before it and, in a sorted
/// list, only farther pairs from it on.
pub proof fn lemma_place(s: Seq<(u32, u32)>, d: u32)
    ensures
        place(s, d) <= s.len(),
        forall|i: int| 0 <= i < place(s, d) ==> s[i].0 <= d,
        place(s, d) < s.len() ==> s[place(s, d) as int].0 > d,
        sorted(s) ==> forall|i: int| place(s, d) <= i < s.len() ==> s[i].0 > d,
    decreases s.len(),
{
    if s.len() == 0 || s[0].0 > d {
    } else {
        let t = s.drop_first();
        lemma_place(t, d);
        assert forall|i: int| 0 <= i < place(s, d) implies s[i].0 <= d by {
            if i > 0 {
                assert(s[i] == t[i - 1]);
            }
        }
        if place(s, d) < s.len() {
            assert(s[place(s, d) as int] == t[place(t, d) as int]);
        }
    }
}

/// `place_falling` lies within the list, has only pairs farther than `d` before it and, in
/// a falling list, only pairs at most `d` away from it on.
pub proof fn lemma_place_falling(s: Seq<(u32, u32)>, d: u32)
    ensures
        place_falling(s, d) <= s.len(),
        forall|i: int| 0 <= i < place_falling(s, d) ==> s[i].0 > d,
        place_falling(s, d) < s.len() ==> s[place_falling(s, d) as int].0 <= d,
        falling(s) ==> forall|i: int| place_falling(s, d) <= i < s.len() ==> s[i].0 <= d,
    decreases s.len(),
{
    if s.len() == 0 || s[0].0 <= d {
    } else {
        let t = s.drop_first();
        lemma_place_falling(t, d);
        assert forall|i: int| 0 <= i < place_falling(s, d) implies s[i].0 > d by {
            if i > 0 {
                assert(s[i] == t[i - 1]);
            }
        }
        if place_falling(s, d) < s.len() {
            assert(s[place_falling(s, d) as int] == t[place_falling(t, d) as int]);
        }
    }
}

/// The one place with only pairs at most `d` away before it and a farther pair, or the end,
/// at it is `place`.
pub proof fn lemma_place_is(s: Seq<(u32, u32)>, d: u32, p: int)
    requires
        0 <= p <= s.len(),
        forall|i: int| 0 <= i < p ==> s[i].0 <= d,
        p < s.len() ==> s[p].0 > d,
    ensures
        place(s, d) == p,
    decreases s.len(),
{
    if s.len() == 0 || s[0].0 > d {
        if p > 0 {
            assert(s[0].0 <= d);
        }
    } else {
        let t = s.drop_first();
        assert forall|i: int| 0 <= i < p - 1 implies t[i].0 <= d by {
            assert(t[i] == s[i + 1]);
        }
        if p - 1 < t.len() {
            assert(t[p - 1] == s[p]);
        }
        lemma_place_is(t, d, p - 1);
    }
}

/// The one place with only pairs farther than `d` before it and a pair at most `d` away,
/// or the end, at it is `place_falling`.
pub proof fn lemma_place_falling_is(s: Seq<(u32, u32)>, d: u32, p: int)
    requires
        0 <= p <= s.len(),
        forall|i: int| 0 <= i < p ==> s[i].0 > d,
        p < s.len() ==> s[p].0 <= d,
    ensures
        place_falling(s, d) == p,
    decreases s.len(),
{
    if s.len() == 0 || s[0].0 <= d {
        if p > 0 {
            assert(s[0].0 > d);
        }
    } else {
        let t = s.drop_first();
        assert forall|i: int| 0 <= i < p - 1 implies t[i].0 > d by {
            assert(t[i] == s[i + 1]);
        }
        if p - 1 < t.len() {
            assert(t[p - 1] == s[p]);
        }
        lemma_place_falling_is(t, d, p - 1);
    }
}

/// A pair put at its place keeps a sorted list sorted, and so does taking the last pair
/// away.
pub proof fn lemma_insert_sorted(s: Seq<(u32, u32)>, e: (u32, u32))
    requires
        sorted(s),
    ensures
        sorted(s.insert(place(s, e.0) as int, e)),
        s.len() > 0 ==> sorted(s.drop_last()),
{
    lemma_place(s, e.0);
    let p = place(s, e.0) as int;
    let r = s.insert(p, e);
    assert forall|i: int, j: int| 0 <= i <= j < r.len() implies r[i].0 <= r[j].0 by {
        if i < p {
            assert(r[i] == s[i]);
        } else if i > p {
            assert(r[i] == s[i - 1]);
        }
        if j < p {
            assert(r[j] == s[j]);
        } else if j > p {
            assert(r[j] == s[j - 1]);
        }
    }
}

/// A pair put at its place keeps a falling list falling, and so does taking the last pair
/// away.
pub proof fn lemma_insert_falling(s: Seq<(u32, u32)>, e: (u32, u32))
    requires
        falling(s),
    ensures
        falling(s.insert(place_falling(s, e.0) as int, e)),
        s.len() > 0 ==> falling(s.drop_last()),
{
    lemma_place_falling(s, e.0);
    let p = place_falling(s, e.0) as int;
    let r = s.insert(p, e);
    assert forall|i: int, j: int| 0 <= i <= j < r.len() implies r[i].0 >= r[j].0 by {
        if i < p {
            assert(r[i] == s[i]);
        } else if i > p {
            assert(r[i] == s[i - 1]);
        }
        if j < p {
            assert(r[j] == s[j]);
        } else if j > p {
            assert(r[j] == s[j - 1]);
        }
    }
}

/// The place of `d` in a sorted list, found by bisection.
fn find_place(v: &Vec<(u32, u32)>, d: u32) -> (p: usize)
    requires
        sorted(v@),
    ensures
        p == place(v@, d),
        p <= v.len(),
{
    let mut lo: usize = 0;
    let mut hi: usize = v.len();
    while lo < hi
        invariant
            0 <= lo <= hi <= v.len(),
            sorted(v@),
            forall|i: int| 0 <= i < lo ==> v@[i].0 <= d,
            forall|i: int| hi <= i < v.len() ==> v@[i].0 > d,
        decreases hi - lo,
    {
        let mid: usize = lo + (hi - lo) / 2;
        if v[mid].0 <= d {
            lo = mid + 1;
        } else {
            hi = mid;
        }
    }
    proof {
        lemma_place_is(v@, d, lo as int);
    }
    lo
}

/// The place of `d` in a falling list, found by bisection.
fn find_place_falling(v: &Vec<(u32, u32)>, d: u32) -> (p: usize)
    requires
        falling(v@),
    ensures
        p == place_falling(v@, d),
        p <= v.len(),
{
    let mut lo: usize = 0;
    let mut hi: usize = v.len();
    while lo < hi
        invariant
            0 <= lo <= hi <= v.len(),
            falling(v@),
            forall|i: int| 0 <= i < lo ==> v@[i].0 > d,
            forall|i: int| hi <= i < v.len() ==> v@[i].0 <= d,
        decreases hi - lo,
    {
        let mid: usize = lo + (hi - lo) / 2;
        if v[mid].0 > d {
            lo = mid + 1;
        } else {
            hi = mid;
        }
    }
    proof {
        lemma_place_falling_is(v@, d, lo as int);
    }
    lo
}

/// A frontier of `(distance, node)` pairs from which the nearest pair is taken first. The
/// pairs are kept farthest first, so that the nearest is the last; of two pairs that are as
/// far as each other, the one that came first is taken first.
#[derive(Clone, Debug)]
pub struct Candidates {
    candidates: Vec<(u32, u32)>,
}

impl View for Candidates {
    type V = Seq<(u32, u32)>;

    closed spec fn view(&self) -> Seq<(u32, u32)> {
        self.candidates@
    }
}

impl Candidates {
    /// The pairs are in the order of their distances, farthest first.
    pub open spec fn wf(&self) -> bool {
        falling(self@)
    }

    /// Clears the list without freeing the memory.
    pub fn clear(&mut self)
        ensures
            final(self)@ == Seq::<(u32, u32)>::empty(),
            final(self).wf(),
    {
        self.candidates.clear();
    }

    /// Puts a node into the frontier, before the pairs that are as near or nearer.
    pub fn push(&mut self, distance: u32, node: u32)
        requires
            old(self).wf(),
        ensures
            final(self)@ == old(self)@.insert(
                place_falling(old(self)@, distance) as int,
                (distance, node),
            ),
            final(self).wf(),
    {
        proof {
            lemma_insert_falling(self@, (distance, node));
        }
        let pos = find_place_falling(&self.candidates, distance);
        self.candidates.insert(pos, (distance, node));
    }

    /// Takes the nearest pair out of the frontier: no pair of the frontier is nearer than
    /// the pair returned.
    pub fn pop(&mut self) -> (nearest: Option<(u32, u32)>)
        requires
            old(self).wf(),
        ensures
            old(self)@.len() == 0 ==> nearest is None && final(self)@ == old(self)@,
            old(self)@.len() > 0 ==> nearest == Some(old(self)@.last()) && final(self)@ == old(
                self,
            )@.drop_last(),
            nearest is Some ==> forall|i: int|
                0 <= i < old(self)@.len() ==> (nearest->0).0 <= (#[trigger] old(self)@[i]).0,
            final(self).wf(),
    {
        self.candidates.pop()
    }
}

impl Default for Candidates {
    fn default() -> (list: Candidates)
        ensures
            list@ == Seq::<(u32, u32)>::empty(),
            list.wf(),
    {
        Candidates { candidates: Vec::new() }
    }
}

/// The list after a pair is offered to it under the bound `cap`: a list with room takes
/// every pair; a full list takes a pair that is nearer than its farthest, which it drops. A
/// pair that is taken goes behind the pairs that are as near.
pub open spec fn offered(s: Seq<(u32, u32)>, cap: nat, e: (u32, u32)) -> Seq<(u32, u32)> {
    if !takes(s, cap, e.0) {
        s
    } else if s.len() == cap {
        s.insert(place(s, e.0) as int, e).drop_last()
    } else {
        s.insert(place(s, e.0) as int, e)
    }
}

/// Whether a list under the bound `cap` takes a pair at distance `d`.
pub open spec fn takes(s: Seq<(u32, u32)>, cap: nat, d: u32) -> bool {
    s.len() != cap || (s.len() > 0 && d < s.last().0)
}

/// A list of at most `cap` pairs `(distance, node)` in the order of their distances: the
/// nearest nodes offered to it so far.
#[derive(Clone, Debug)]
pub struct FixedCandidates {
    candidates: Vec<(u32, u32)>,
    cap: usize,
}

impl View for FixedCandidates {
    type V = Seq<(u32, u32)>;

    closed spec fn view(&self) -> Seq<(u32, u32)> {
        self.candidates@
    }
}

impl FixedCandidates {
    /// The bound on the number of pairs.
    pub closed spec fn cap(&self) -> usize {
        self.cap
    }

    /// The pairs are in the order of their distances and no more than the bound allows.
    pub open spec fn wf(&self) -> bool {
        sorted(self@) && self@.len() <= self.cap()
    }

    /// Clears the list without freeing the memory, and sets the bound to 0.
    pub fn clear(&mut self)
        ensures
            final(self)@ == Seq::<(u32, u32)>::empty(),
            final(self).cap() == 0,
            final(self).wf(),
    {
        self.candidates.clear();
        self.cap = 0;
    }

    /// Gets the number of items in the candidate pool.
    pub fn len(&self) -> (n: usize)
        ensures
            n == self@.len(),
    {
        self.candidates.len()
    }

    /// Checks if any candidates are present.
    pub fn is_empty(&self) -> (empty: bool)
        ensures
            empty == (self@.len() == 0),
    {
        self.len() == 0
    }

    /// Offers a node to the list, and tells whether the list took it. A node that is taken
    /// goes behind the nodes that are as near: of two nodes as far as each other, the one
    /// that came first stays first.
    pub fn push(&mut self, distance: u32, node: u32) -> (taken: bool)
        requires
            old(self).wf(),
        ensures
            taken == takes(old(self)@, old(self).cap() as nat, distance),
            final(self)@ == offered(old(self)@, old(self).cap() as nat, (distance, node)),
            final(self).cap() == old(self).cap(),
            final(self).wf(),
    {
        let len = self.candidates.len();
        let better = if len > 0 {
            distance < self.candidates[len - 1].0
        } else {
            self.cap != 0
        };
        let full = len == self.cap;
        let will_add = better || !full;
        if will_add {
            proof {
                lemma_insert_sorted(self@, (distance, node));
                lemma_insert_sorted(self@.insert(place(self@, distance) as int, (distance, node)), (
                    distance,
                    node,
                ));
            }
            let pos = find_place(&self.candidates, distance);
            self.candidates.insert(pos, (distance, node));
            if full {
                self.candidates.pop();
            }
        }
        will_add
    }

    /// Takes the farthest pair out of the list: no pair of the list is farther than the
    /// pair returned.
    pub fn pop(&mut self) -> (last: Option<(u32, u32)>)
        requires
            old(self).wf(),
        ensures
            old(self)@.len() == 0 ==> last is None && final(self)@ == old(self)@,
            old(self)@.len() > 0 ==> last == Some(old(self)@.last()) && final(self)@ == old(
                self,
            )@.drop_last(),
            last is Some ==> forall|i: int|
                0 <= i < old(self)@.len() ==> (#[trigger] old(self)@[i]).0 <= (last->0).0,
            final(self).cap() == old(self).cap(),
            final(self).wf(),
    {
        self.candidates.pop()
    }

    /// Sets the bound to `cap`. A list that holds more keeps its `cap` nearest pairs.
    pub fn set_cap(&mut self, cap: usize)
        requires
            sorted(old(self)@),
        ensures
            final(self).cap() == cap,
            final(self)@ == if old(self)@.len() > cap {
                old(self)@.take(cap as int)
            } else {
                old(self)@
            },
            final(self).wf(),
    {
        self.cap = cap;
        if self.candidates.len() > cap {
            let ghost before = self.candidates@;
            self.candidates.truncate(cap);
            proof {
                assert(self.candidates@ == before.take(cap as int));
                assert forall|i: int, j: int| 0 <= i <= j < self.candidates@.len() implies self.candidates@[i].0
                    <= self.candidates@[j].0 by {
                    assert(self.candidates@[i] == before[i]);
                    assert(self.candidates@[j] == before[j]);
                }
            }
        }
    }

    /// Fills the front of a slice with the nodes of the list, nearest first, as far as the
    /// slice and the list go, and returns the part of the slice written.
    pub fn fill_slice<'a>(&self, s: &'a mut [u32]) -> (filled: &'a mut [u32])
        ensures
            filled@.len() == if old(s)@.len() <= self@.len() {
                old(s)@.len()
            } else {
                self@.len()
            },
            forall|i: int| 0 <= i < filled@.len() ==> filled@[i] == self@[i].1,
            final(s)@ == final(filled)@ + old(s)@.skip(filled@.len() as int),
    {
        let ghost before = s@;
        let total_fill: usize = if s.len() <= self.candidates.len() {
            s.len()
        } else {
            self.candidates.len()
        };
        let mut ix: usize = 0;
        while ix < total_fill
            invariant
                0 <= ix <= total_fill,
                total_fill <= s@.len(),
                total_fill <= self.candidates@.len(),
                s@.len() == before.len(),
                forall|i: int| 0 <= i < ix ==> s@[i] == self.candidates@[i].1,
                forall|i: int| total_fill <= i < s@.len() ==> s@[i] == before[i],
            decreases total_fill - ix,
        {
            s[ix] = self.candidates[ix].1;
            ix += 1;
        }
        let (filled, rest) = s.split_at_mut(total_fill);
        proof {
            assert(rest@ =~= before.skip(total_fill as int));
        }
        filled
    }
}

impl Default for FixedCandidates {
    fn default() -> (list: FixedCandidates)
        ensures
            list@ == Seq::<(u32, u32)>::empty(),
            list.cap() == 0,
            list.wf(),
    {
        FixedCandidates { candidates: Vec::new(), cap: 0 }
    }
}

} // verus!
