//! The set of the points that a search has met.
use vstd::prelude::*;

verus! {

/// The set of point ids that a search has met, kept in a `hashbrown::HashSet` that hashes
/// with a fixed-seed `ahash::RandomState`.
#[verifier::external_body]
#[derive(Debug)]
pub struct VisitedSet {
    ids: hashbrown::HashSet<usize, ahash::RandomState>,
}

/// The ids that a visited set holds.
pub uninterp spec fn visited_ids(s: VisitedSet) -> Set<usize>;

impl VisitedSet {
    /// Calls `hashbrown::HashSet::with_hasher` on `ahash::RandomState::with_seeds(0, 0, 0, 0)`;
    /// the contract says that the new set holds nothing.
    #[verifier::external_body]
    pub(crate) fn new() -> (s: VisitedSet)
        ensures
            visited_ids(s) == Set::<usize>::empty(),
    {
        VisitedSet { ids: hashbrown::HashSet::with_hasher(ahash::RandomState::with_seeds(0, 0, 0, 0)) }
    }

    /// Calls `hashbrown::HashSet::with_capacity_and_hasher` with the same fixed seeds; the
    /// contract says that the new set holds nothing, whatever room was asked for.
    #[verifier::external_body]
    pub(crate) fn with_capacity(capacity: usize) -> (s: VisitedSet)
        ensures
            visited_ids(s) == Set::<usize>::empty(),
    {
        VisitedSet {
            ids: hashbrown::HashSet::with_capacity_and_hasher(
                capacity,
                ahash::RandomState::with_seeds(0, 0, 0, 0),
            ),
        }
    }

    /// Calls `hashbrown::HashSet::insert`; the contract says that the id is in the set
    /// afterwards, that nothing else changed, and that the result tells whether the id was
    /// absent before.
    #[verifier::external_body]
    pub(crate) fn insert(&mut self, id: usize) -> (fresh: bool)
        ensures
            visited_ids(*final(self)) == visited_ids(*old(self)).insert(id),
            fresh == !visited_ids(*old(self)).contains(id),
    {
        self.ids.insert(id)
    }

    /// Calls `hashbrown::HashSet::clear`; the contract says that the set holds nothing
    /// afterwards.
    #[verifier::external_body]
    pub(crate) fn clear(&mut self)
        ensures
            visited_ids(*final(self)) == Set::<usize>::empty(),
    {
        self.ids.clear()
    }
}

impl Clone for VisitedSet {
    /// Calls `clone` of `hashbrown::HashSet`; the contract says that the copy holds the ids
    /// that the set holds.
    #[verifier::external_body]
    fn clone(&self) -> (copy: VisitedSet)
        ensures
            visited_ids(copy) == visited_ids(*self),
    {
        VisitedSet { ids: self.ids.clone() }
    }
}

} // verus!
