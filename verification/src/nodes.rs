//! The nodes of the graph and their adjacency lists.
use vstd::prelude::*;

verus! {

/// The value of an adjacency slot that holds no neighbour.
pub const NIL: usize = usize::MAX;

/// Picks out the zero layer, which every point is in, from the layers above it.
pub enum Layer<T> {
    Zero,
    NonZero(T),
}

/// An adjacency list with every slot empty.
pub open spec fn empty_slots(degree: nat) -> Seq<usize> {
    Seq::new(degree, |i: int| NIL)
}

/// How many slots of an adjacency list come before its first empty one.
pub open spec fn filled_len(slots: Seq<usize>) -> nat
    decreases slots.len(),
{
    if slots.len() == 0 || slots[0] == NIL {
        0
    } else {
        1 + filled_len(slots.drop_first())
    }
}

/// The neighbours that an adjacency list holds: its slots up to the first empty one.
pub open spec fn filled(slots: Seq<usize>) -> Seq<usize> {
    slots.take(filled_len(slots) as int)
}

/// Every empty slot of the list comes after every slot in use.
pub open spec fn compacted(slots: Seq<usize>) -> bool {
    forall|i: int, j: int| 0 <= i <= j < slots.len() && slots[i] == NIL ==> slots[j] == NIL
}

/// `filled_len` lies within the list, with slots in use before it and an empty slot, or the
/// end, at it; in a compacted list every slot from it on is empty.
pub proof fn lemma_filled_len(slots: Seq<usize>)
    ensures
        filled_len(slots) <= slots.len(),
        forall|i: int| 0 <= i < filled_len(slots) ==> slots[i] != NIL,
        filled_len(slots) < slots.len() ==> slots[filled_len(slots) as int] == NIL,
        compacted(slots) ==> forall|i: int| filled_len(slots) <= i < slots.len() ==> slots[i] == NIL,
    decreases slots.len(),
{
    if slots.len() == 0 || slots[0] == NIL {
    } else {
        let t = slots.drop_first();
        lemma_filled_len(t);
        assert forall|i: int| 0 <= i < filled_len(slots) implies slots[i] != NIL by {
            if i > 0 {
                assert(slots[i] == t[i - 1]);
            }
        }
        if filled_len(slots) < slots.len() {
            assert(slots[filled_len(slots) as int] == t[filled_len(t) as int]);
        }
    }
}

/// The one place with slots in use before it and an empty slot, or the end, at it is
/// `filled_len`.
pub proof fn lemma_filled_len_is(slots: Seq<usize>, p: int)
    requires
        0 <= p <= slots.len(),
        forall|i: int| 0 <= i < p ==> slots[i] != NIL,
        p < slots.len() ==> slots[p] == NIL,
    ensures
        filled_len(slots) == p,
    decreases slots.len(),
{
    if slots.len() == 0 || slots[0] == NIL {
        if p > 0 {
            assert(slots[0] != NIL);
        }
    } else {
        let t = slots.drop_first();
        assert forall|i: int| 0 <= i < p - 1 implies t[i] != NIL by {
            assert(t[i] == slots[i + 1]);
        }
        if p - 1 < t.len() {
            assert(t[p - 1] == slots[p]);
        }
        lemma_filled_len_is(t, p - 1);
    }
}

/// Anything that has a list of neighbours in a layer of the graph.
pub trait HasNeighbors {
    /// The adjacency slots, empty ones included.
    spec fn slots(&self) -> Seq<usize>;

    /// The neighbours, in slot order, up to the first empty slot.
    fn get_neighbors(&self) -> (found: Vec<usize>)
        ensures
            found@ == filled(self.slots()),
    ;
}

/// The adjacency list of a node: `N` slots, of which those in use come first.
#[derive(Clone, Debug)]
pub struct NeighborNodes<const N: usize> {
    /// The neighbors of this node.
    pub neighbors: [usize; N],
}

impl<const N: usize> NeighborNodes<N> {
    /// A list with every slot empty.
    pub fn new() -> (list: Self)
        ensures
            list.neighbors@ == empty_slots(N as nat),
    {
        let list = NeighborNodes { neighbors: [NIL; N] };
        assert(list.neighbors@ =~= empty_slots(N as nat));
        list
    }

    /// The neighbours, in slot order, up to the first empty slot.
    pub fn neighbors(&self) -> (found: Vec<usize>)
        ensures
            found@ == filled(self.neighbors@),
    {
        let mut found: Vec<usize> = Vec::new();
        let mut i: usize = 0;
        while i < N && self.neighbors[i] != NIL
            invariant
                0 <= i <= N,
                self.neighbors@.len() == N,
                found@ == self.neighbors@.take(i as int),
                forall|j: int| 0 <= j < i ==> self.neighbors@[j] != NIL,
            decreases N - i,
        {
            found.push(self.neighbors[i]);
            i += 1;
            assert(found@ =~= self.neighbors@.take(i as int));
        }
        proof {
            lemma_filled_len_is(self.neighbors@, i as int);
        }
        found
    }
}

impl<const N: usize> HasNeighbors for NeighborNodes<N> {
    open spec fn slots(&self) -> Seq<usize> {
        self.neighbors@
    }

    fn get_neighbors(&self) -> (found: Vec<usize>) {
        self.neighbors()
    }
}

/// A node in a layer above the zero layer.
#[derive(Clone, Debug)]
pub struct Node<const N: usize> {
    /// The node in the zero layer this refers to.
    pub zero_node: usize,
    /// The node in the layer below this one that this node corresponds to.
    pub next_node: usize,
    /// The neighbors in the graph of this node.
    pub neighbors: NeighborNodes<N>,
}

impl<const N: usize> HasNeighbors for Node<N> {
    open spec fn slots(&self) -> Seq<usize> {
        self.neighbors.neighbors@
    }

    fn get_neighbors(&self) -> (found: Vec<usize>) {
        self.neighbors.neighbors()
    }
}

} // verus!

verus! {

/// A node of a layer above the zero layer, as plain values.
pub open spec fn node_view<const N: usize>(node: Node<N>) -> crate::graph::NodeView {
    crate::graph::NodeView {
        zero_node: node.zero_node,
        next_node: node.next_node,
        slots: node.neighbors.neighbors@,
    }
}

} // verus!
