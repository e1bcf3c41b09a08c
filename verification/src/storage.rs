//! What an index whose nodes lie in a key-value store keeps of each node and of itself:
//! adjacency lists that hold, with every neighbour, its distance from the node, and the
//! record of the entry point and of the number of nodes.
use vstd::prelude::*;

verus! {

/// The distance of an adjacency slot that holds no neighbour.
pub const UNUSED: u32 = u32::MAX;

/// The distances of a list of `(node, distance)` slots never decrease from front to back.
pub open spec fn by_distance(slots: Seq<(usize, u32)>) -> bool {
    forall|i: int, j: int| 0 <= i <= j < slots.len() ==> slots[i].1 <= slots[j].1
}

/// How many leading slots of the list are nearer than `d`.
pub open spec fn nearer(slots: Seq<(usize, u32)>, d: u32) -> nat
    decreases slots.len(),
{
    if slots.len() == 0 || slots[0].1 >= d {
        0
    } else {
        1 + nearer(slots.drop_first(), d)
    }
}

/// The one place with only nearer slots before it and a slot at least as far, or the end,
/// at it is `nearer`.
pub proof fn lemma_nearer_is(slots: Seq<(usize, u32)>, d: u32, p: int)
    requires
        0 <= p <= slots.len(),
        forall|i: int| 0 <= i < p ==> slots[i].1 < d,
        p < slots.len() ==> slots[p].1 >= d,
    ensures
        nearer(slots, d) == p,
    decreases slots.len(),
{
    if slots.len() == 0 || slots[0].1 >= d {
        if p > 0 {
            assert(slots[0].1 < d);
        }
    } else {
        let t = slots.drop_first();
        assert forall|i: int| 0 <= i < p - 1 implies t[i].1 < d by {
            assert(t[i] == slots[i + 1]);
        }
        if p - 1 < t.len() {
            assert(t[p - 1] == slots[p]);
        }
        lemma_nearer_is(t, d, p - 1);
    }
}

/// The list after a neighbour is put into it at the place `p`: the slots from that place on
/// move back by one, and the last of them is lost. Putting it behind the last slot changes
/// nothing.
pub open spec fn put_at(slots: Seq<(usize, u32)>, p: int, node: usize, d: u32) -> Seq<
    (usize, u32),
> {
    if p < slots.len() {
        slots.insert(p, (node, d)).take(slots.len() as int)
    } else {
        slots
    }
}

/// The list after a neighbour is put into it at its place by distance, before the
/// neighbours that are as far.
pub open spec fn with_neighbor(slots: Seq<(usize, u32)>, node: usize, d: u32) -> Seq<
    (usize, u32),
> {
    put_at(slots, nearer(slots, d) as int, node, d)
}

/// The slots up to the first one that holds no neighbour.
pub open spec fn used_len(slots: Seq<(usize, u32)>) -> nat
    decreases slots.len(),
{
    if slots.len() == 0 || slots[0].1 == UNUSED {
        0
    } else {
        1 + used_len(slots.drop_first())
    }
}

/// The one place with slots in use before it and an unused slot, or the end, at it is
/// `used_len`.
pub proof fn lemma_used_len_is(slots: Seq<(usize, u32)>, p: int)
    requires
        0 <= p <= slots.len(),
        forall|i: int| 0 <= i < p ==> slots[i].1 != UNUSED,
        p < slots.len() ==> slots[p].1 == UNUSED,
    ensures
        used_len(slots) == p,
    decreases slots.len(),
{
    if slots.len() == 0 || slots[0].1 == UNUSED {
        if p > 0 {
            assert(slots[0].1 != UNUSED);
        }
    } else {
        let t = slots.drop_first();
        assert forall|i: int| 0 <= i < p - 1 implies t[i].1 != UNUSED by {
            assert(t[i] == slots[i + 1]);
        }
        if p - 1 < t.len() {
            assert(t[p - 1] == slots[p]);
        }
        lemma_used_len_is(t, p - 1);
    }
}

/// The adjacency list of a stored node: `N` slots of a neighbour and its distance from the
/// node, nearest first.
#[derive(Clone, Debug)]
pub struct NeighborNodes<const N: usize> {
    /// The neighbors of this node, each with its distance.
    pub neighbors: [(usize, u32); N],
}

impl<const N: usize> NeighborNodes<N> {
    /// A list with every slot unused.
    pub fn new() -> (list: Self)
        ensures
            list.neighbors@ == Seq::new(N as nat, |i: int| (0usize, UNUSED)),
            by_distance(list.neighbors@),
    {
        let list = NeighborNodes { neighbors: [(0, UNUSED); N] };
        assert(list.neighbors@ =~= Seq::new(N as nat, |i: int| (0usize, UNUSED)));
        list
    }

    /// The neighbours with their distances, in slot order, up to the first unused slot.
    pub fn neighbors(&self) -> (found: Vec<(usize, u32)>)
        ensures
            found@ == self.neighbors@.take(used_len(self.neighbors@) as int),
    {
        let mut found: Vec<(usize, u32)> = Vec::new();
        let mut i: usize = 0;
        while i < N && self.neighbors[i].1 != UNUSED
            invariant
                0 <= i <= N,
                self.neighbors@.len() == N,
                found@ == self.neighbors@.take(i as int),
                forall|j: int| 0 <= j < i ==> self.neighbors@[j].1 != UNUSED,
            decreases N - i,
        {
            found.push(self.neighbors[i]);
            i += 1;
            assert(found@ =~= self.neighbors@.take(i as int));
        }
        proof {
            lemma_used_len_is(self.neighbors@, i as int);
        }
        found
    }

    /// Writes a neighbour and its distance into a slot.
    pub fn assign(&mut self, slot: usize, node: usize, distance: u32)
        requires
            slot < N,
        ensures
            final(self).neighbors@ == old(self).neighbors@.update(slot as int, (node, distance)),
    {
        self.neighbors[slot] = (node, distance);
    }

    /// Puts a neighbour into a list that is in the order of its distances, at its place by
    /// distance and before the neighbours that are as far; the farthest neighbour of a full
    /// list is lost. In a list that is not in order the neighbour is put at some place, or
    /// not at all.
    pub fn add_neighbor(&mut self, node: usize, distance: u32)
        ensures
            by_distance(old(self).neighbors@) ==> final(self).neighbors@ == with_neighbor(
                old(self).neighbors@,
                node,
                distance,
            ),
            exists|p: int|
                0 <= p <= N && final(self).neighbors@ == #[trigger] put_at(
                    old(self).neighbors@,
                    p,
                    node,
                    distance,
                ),
    {
        let ghost before = self.neighbors@;
        let mut lo: usize = 0;
        let mut hi: usize = N;
        while lo < hi
            invariant
                0 <= lo <= hi <= N,
                self.neighbors@ == before,
                before.len() == N,
                by_distance(before) ==> forall|i: int| 0 <= i < lo ==> before[i].1 < distance,
                by_distance(before) ==> forall|i: int| hi <= i < N ==> before[i].1 >= distance,
            decreases hi - lo,
        {
            let mid: usize = lo + (hi - lo) / 2;
            if self.neighbors[mid].1 < distance {
                lo = mid + 1;
            } else {
                hi = mid;
            }
        }
        proof {
            if by_distance(before) {
                lemma_nearer_is(before, distance, lo as int);
            }
        }
        let insert_point = lo;
        let mut buf: (usize, u32) = (0, UNUSED);
        let mut i: usize = 0;
        while i < N
            invariant
                0 <= i <= N,
                before.len() == N,
                self.neighbors@.len() == N,
                insert_point <= N,
                forall|j: int| 0 <= j < i && j < insert_point ==> self.neighbors@[j] == before[j],
                forall|j: int| 0 <= j < i && j == insert_point ==> self.neighbors@[j] == (
                    node,
                    distance,
                ),
                forall|j: int| 0 <= j < i && j > insert_point ==> self.neighbors@[j] == before[j - 1],
                forall|j: int| i <= j < N ==> self.neighbors@[j] == before[j],
                i > 0 ==> buf == before[i - 1],
            decreases N - i,
        {
            let curr = self.neighbors[i];
            if i == insert_point {
                self.neighbors[i] = (node, distance);
            } else if i > insert_point {
                self.neighbors[i] = buf;
            }
            buf = curr;
            i += 1;
        }
        proof {
            assert(self.neighbors@ =~= put_at(before, insert_point as int, node, distance));
        }
    }
}

/// What an index in a store records of itself.
#[derive(Clone, Debug)]
pub struct MetaData {
    /// The id of the node at which searches start, once there is a node.
    pub entry_point: Option<i32>,
    /// The number of nodes, once there is a node.
    pub num_nodes: Option<i32>,
}

impl MetaData {
    /// The record of an index without nodes.
    pub fn new() -> (meta: Self)
        ensures
            meta.entry_point is None,
            meta.num_nodes is None,
    {
        MetaData { entry_point: None, num_nodes: None }
    }

    /// Counts a node that is new in the store. The first node of all becomes the entry
    /// point.
    pub fn store_new_node(&mut self, id: i32)
        requires
            old(self).num_nodes matches Some(n) ==> n < i32::MAX,
        ensures
            final(self).num_nodes == match old(self).num_nodes {
                Some(n) => Some((n + 1) as i32),
                None => Some(1i32),
            },
            final(self).entry_point == match old(self).entry_point {
                Some(ep) => Some(ep),
                None => Some(id),
            },
    {
        self.num_nodes = match self.num_nodes {
            Some(n) => Some(n + 1),
            None => Some(1),
        };
        self.entry_point = match self.entry_point {
            Some(ep) => Some(ep),
            None => Some(id),
        };
    }

    /// Makes a node the entry point.
    pub fn update_entry_point(&mut self, id: i32)
        ensures
            final(self).entry_point == Some(id),
            final(self).num_nodes == old(self).num_nodes,
    {
        self.entry_point = Some(id);
    }

    /// The number of nodes: the count that the record holds, read as an unsigned number.
    pub fn num_node(&self) -> (n: usize)
        ensures
            self.num_nodes is None ==> n == 0,
            self.num_nodes matches Some(count) ==> (count >= 0 ==> n == count) && (count < 0 ==> n
                == usize::MAX + 1 + count),
    {
        match self.num_nodes {
            Some(count) => {
                if count >= 0 {
                    count as usize
                } else {
                    // The two's complement of a negative count.
                    usize::MAX - ((-(count + 1)) as usize)
                }
            },
            None => 0,
        }
    }
}

} // verus!
