//! How a new node is linked into a layer: which neighbours it gets, and when a node takes
//! it as a neighbour in turn.
use vstd::prelude::*;
use crate::graph::{lemma_node_facts, slots_wf, GraphView, NodeView};
use crate::metric::{distinct_indices, Metric, Neighbor};
use crate::nodes::{filled_len, lemma_filled_len, NIL};

verus! {

impl<T> GraphView<T> {
    /// The graph with the adjacency list of one node replaced.
    pub open spec fn with_slots(self, layer: nat, idx: int, slots: Seq<usize>) -> GraphView<T> {
        if layer == 0 {
            GraphView { zero: self.zero.update(idx, slots), ..self }
        } else {
            let node = NodeView { slots, ..self.layers[layer - 1][idx] };
            GraphView {
                layers: self.layers.update(layer - 1, self.layers[layer - 1].update(idx, node)),
                ..self
            }
        }
    }

    /// The other graph has the same points and the same nodes in the same layers; only
    /// adjacency lists may differ.
    pub open spec fn same_nodes(self, other: GraphView<T>) -> bool {
        &&& other.points == self.points
        &&& other.m == self.m
        &&& other.m0 == self.m0
        &&& other.zero.len() == self.zero.len()
        &&& other.layers.len() == self.layers.len()
        &&& forall|l: int|
            0 <= l < self.layers.len() ==> (#[trigger] other.layers[l]).len()
                == self.layers[l].len()
        &&& forall|l: int, i: int|
            0 <= l < self.layers.len() && 0 <= i < self.layers[l].len() ==> (
            #[trigger] other.layers[l][i]).zero_node == self.layers[l][i].zero_node
                && other.layers[l][i].next_node == self.layers[l][i].next_node
    }

    /// The other graph has the same adjacency lists in every layer but `layer`.
    pub open spec fn same_elsewhere(self, other: GraphView<T>, layer: nat) -> bool {
        forall|l: nat, i: int|
            l != layer && l <= self.top() && 0 <= i < self.size(l) ==> #[trigger] other.slots(l, i)
                == self.slots(l, i)
    }

    /// The other graph has the same adjacency lists in `layer` but for the node `idx`.
    pub open spec fn same_but(self, other: GraphView<T>, layer: nat, idx: int) -> bool {
        forall|i: int|
            i != idx && 0 <= i < self.size(layer) ==> #[trigger] other.slots(layer, i)
                == self.slots(layer, i)
    }
}

/// Graphs with the same nodes have layers of the same sizes whose nodes stand for the same
/// points.
pub proof fn lemma_same_nodes<T>(g: GraphView<T>, h: GraphView<T>, layer: nat, idx: int)
    requires
        g.same_nodes(h),
        layer <= g.top(),
    ensures
        h.top() == g.top(),
        h.size(layer) == g.size(layer),
        h.degree(layer) == g.degree(layer),
        0 <= idx < g.size(layer) ==> h.point_of(layer, idx) == g.point_of(layer, idx),
        0 <= idx < g.size(layer) && layer > 0 ==> h.below(layer, idx) == g.below(layer, idx),
{
    if layer > 0 {
        assert(h.layers[layer - 1].len() == g.layers[layer - 1].len());
        if 0 <= idx < g.size(layer) {
            assert(h.layers[layer - 1][idx].zero_node == g.layers[layer - 1][idx].zero_node);
        }
    }
}

/// Having the same nodes carries over from graph to graph.
pub proof fn lemma_same_nodes_trans<T>(g: GraphView<T>, h: GraphView<T>, k: GraphView<T>)
    requires
        g.same_nodes(h),
        h.same_nodes(k),
    ensures
        g.same_nodes(k),
{
    assert forall|l: int| 0 <= l < g.layers.len() implies (#[trigger] k.layers[l]).len()
        == g.layers[l].len() by {
        assert(h.layers[l].len() == g.layers[l].len());
    }
    assert forall|l: int, i: int|
        0 <= l < g.layers.len() && 0 <= i < g.layers[l].len() implies (
    #[trigger] k.layers[l][i]).zero_node == g.layers[l][i].zero_node && k.layers[l][i].next_node
        == g.layers[l][i].next_node by {
        assert(h.layers[l].len() == g.layers[l].len());
        assert(h.layers[l][i].zero_node == g.layers[l][i].zero_node);
    }
}

/// Replacing the adjacency list of a node by a list that is in order keeps the graph in
/// order and touches nothing else.
pub proof fn lemma_with_slots<T>(g: GraphView<T>, layer: nat, idx: int, slots: Seq<usize>)
    requires
        g.wf(),
        layer <= g.top(),
        0 <= idx < g.size(layer),
        slots.len() == g.degree(layer),
        slots_wf(slots, idx, g.size(layer)),
    ensures
        g.with_slots(layer, idx, slots).wf(),
        g.same_nodes(g.with_slots(layer, idx, slots)),
        g.same_elsewhere(g.with_slots(layer, idx, slots), layer),
        g.same_but(g.with_slots(layer, idx, slots), layer, idx),
        g.with_slots(layer, idx, slots).slots(layer, idx) == slots,
{
    let h = g.with_slots(layer, idx, slots);
    lemma_with_slots_frame(g, layer, idx, slots);
    assert forall|i: int| 0 <= i < h.zero.len() implies (#[trigger] h.zero[i]).len() == h.m0
        && slots_wf(h.zero[i], i, h.zero.len()) by {
        assert(g.zero[i].len() == g.m0);
    }
    assert forall|l: int| 0 <= l < h.layers.len() implies #[trigger] h.layer_wf(l) by {
        assert(g.layer_wf(l));
        assert forall|i: int| 0 <= i < h.layers[l].len() implies #[trigger] h.node_wf(l, i) by {
            assert(g.node_wf(l, i));
            let node = g.layers[l][i];
            lemma_same_nodes(g, h, l as nat, node.next_node as int);
        }
        assert forall|i: int, j: int| 0 <= i < j < h.layers[l].len() implies (
        #[trigger] h.layers[l][i]).zero_node < (#[trigger] h.layers[l][j]).zero_node by {
            assert(g.layers[l][i].zero_node < g.layers[l][j].zero_node);
        }
    }
}

/// Replacing the adjacency list of a node touches no other list and no node.
pub proof fn lemma_with_slots_frame<T>(g: GraphView<T>, layer: nat, idx: int, slots: Seq<usize>)
    requires
        layer <= g.top(),
        0 <= idx < g.size(layer),
    ensures
        g.same_nodes(g.with_slots(layer, idx, slots)),
        g.same_elsewhere(g.with_slots(layer, idx, slots), layer),
        g.same_but(g.with_slots(layer, idx, slots), layer, idx),
        g.with_slots(layer, idx, slots).slots(layer, idx) == slots,
{
}

/// The adjacency list of a new node: the nodes that the search found, nearest first, as
/// far as there are slots, and empty slots after them.
pub open spec fn chosen(nearest: Seq<Neighbor>, degree: nat) -> Seq<usize> {
    Seq::new(
        degree,
        |i: int|
            if i < nearest.len() {
                nearest[i].index
            } else {
                NIL
            },
    )
}

/// The list chosen for a new node is in order if the nodes found are nodes of the layer,
/// all different and none of them the new node.
pub proof fn lemma_chosen_wf(nearest: Seq<Neighbor>, degree: nat, own: int, size: nat)
    requires
        size <= usize::MAX,
        0 <= own < size,
        distinct_indices(nearest),
        forall|i: int| 0 <= i < nearest.len() ==> (#[trigger] nearest[i]).index < size,
        forall|i: int| 0 <= i < nearest.len() ==> (#[trigger] nearest[i]).index != own,
    ensures
        slots_wf(chosen(nearest, degree), own, size),
{
    let c = chosen(nearest, degree);
    assert forall|i: int, j: int| 0 <= i <= j < c.len() && c[i] == NIL implies c[j] == NIL by {
        if i < nearest.len() {
            assert(nearest[i].index < size);
        }
    }
    assert forall|i: int| 0 <= i < c.len() && #[trigger] c[i] != NIL implies c[i] < size by {
        assert(nearest[i].index < size);
    }
    assert forall|i: int| 0 <= i < c.len() implies #[trigger] c[i] != own by {
        if i < nearest.len() {
            assert(nearest[i].index != own);
        } else {
            assert(own < size);
        }
    }
    assert forall|i: int, j: int|
        0 <= i < j < c.len() && #[trigger] c[i] == #[trigger] c[j] implies c[i] == NIL by {
        if j < nearest.len() {
            assert(nearest[i].index != nearest[j].index);
        } else if i < nearest.len() {
            assert(nearest[i].index < size);
        }
    }
}

/// The distance from a node to the neighbour in one of its slots.
pub open spec fn slot_dist<Met: Metric<T>, T>(
    g: GraphView<T>,
    metric: Met,
    layer: nat,
    v: int,
    k: int,
) -> u64 {
    metric.dist(
        &g.points[g.point_of(layer, v) as int],
        &g.points[g.point_of(layer, g.slots(layer, v)[k] as int) as int],
    )
}

/// Among the first `upto` slots of a node, the first one whose neighbour is farthest from
/// the node.
pub open spec fn worst_slot<Met: Metric<T>, T>(
    g: GraphView<T>,
    metric: Met,
    layer: nat,
    v: int,
    upto: int,
) -> int
    decreases upto,
{
    if upto <= 1 {
        0
    } else {
        let w = worst_slot(g, metric, layer, v, upto - 1);
        if slot_dist(g, metric, layer, v, upto - 1) > slot_dist(g, metric, layer, v, w) {
            upto - 1
        } else {
            w
        }
    }
}

/// The worst slot is one of the slots looked at.
pub proof fn lemma_worst_slot<Met: Metric<T>, T>(
    g: GraphView<T>,
    metric: Met,
    layer: nat,
    v: int,
    upto: int,
)
    requires
        upto >= 1,
    ensures
        0 <= worst_slot(g, metric, layer, v, upto) < upto,
    decreases upto,
{
    if upto > 1 {
        lemma_worst_slot(g, metric, layer, v, upto - 1);
    }
}

/// The graph after the node `x` is offered to the node `v` as a neighbour: `x` goes into
/// the first empty slot of `v`; where `v` has none, `x` takes the place of the neighbour of
/// `v` that is farthest from `v` if `v` is nearer to `x` than to that neighbour, and is
/// turned away otherwise. Of several farthest neighbours the first one goes.
pub open spec fn back_edge<Met: Metric<T>, T>(
    g: GraphView<T>,
    metric: Met,
    layer: nat,
    v: int,
    x: usize,
) -> GraphView<T> {
    let s = g.slots(layer, v);
    let free = filled_len(s) as int;
    let worst = worst_slot(g, metric, layer, v, s.len() as int);
    if free < s.len() {
        g.with_slots(layer, v, s.update(free, x))
    } else if s.len() > 0 && metric.dist(
        &g.points[g.point_of(layer, v) as int],
        &g.points[g.point_of(layer, x as int) as int],
    ) < slot_dist(g, metric, layer, v, worst) {
        g.with_slots(layer, v, s.update(worst, x))
    } else {
        g
    }
}

/// The graph after the node `x` is offered as a neighbour to the first `upto` of the
/// targets, in order.
pub open spec fn back_edges<Met: Metric<T>, T>(
    g: GraphView<T>,
    metric: Met,
    layer: nat,
    x: usize,
    targets: Seq<usize>,
    upto: int,
) -> GraphView<T>
    decreases upto,
{
    if upto <= 0 {
        g
    } else {
        back_edge(
            back_edges(g, metric, layer, x, targets, upto - 1),
            metric,
            layer,
            targets[upto - 1] as int,
            x,
        )
    }
}

/// How many of the nodes found become neighbours of a new node.
pub open spec fn chosen_len(nearest: Seq<Neighbor>, degree: nat) -> nat {
    if nearest.len() <= degree {
        nearest.len()
    } else {
        degree
    }
}

/// The graph after the node `x` of a layer is linked to the nodes that a search found: `x`
/// gets the nearest of them as its neighbours, and is then offered to each of these as a
/// neighbour, nearest first.
pub open spec fn linked<Met: Metric<T>, T>(
    g: GraphView<T>,
    metric: Met,
    layer: nat,
    x: usize,
    nearest: Seq<Neighbor>,
) -> GraphView<T> {
    let list = chosen(nearest, g.degree(layer));
    back_edges(
        g.with_slots(layer, x as int, list),
        metric,
        layer,
        x,
        list,
        chosen_len(nearest, g.degree(layer)) as int,
    )
}

/// Offering `x` to `v` keeps the graph in order and touches no list but that of `v`.
pub proof fn lemma_back_edge<Met: Metric<T>, T>(
    g: GraphView<T>,
    metric: Met,
    layer: nat,
    v: int,
    x: usize,
)
    requires
        g.wf(),
        layer <= g.top(),
        0 <= v < g.size(layer),
        x < g.size(layer),
        v != x,
        forall|k: int| 0 <= k < g.slots(layer, v).len() ==> #[trigger] g.slots(layer, v)[k] != x,
    ensures
        back_edge(g, metric, layer, v, x).wf(),
        g.same_nodes(back_edge(g, metric, layer, v, x)),
        g.same_elsewhere(back_edge(g, metric, layer, v, x), layer),
        g.same_but(back_edge(g, metric, layer, v, x), layer, v),
{
    let s = g.slots(layer, v);
    let free = filled_len(s) as int;
    let worst = worst_slot(g, metric, layer, v, s.len() as int);
    lemma_node_facts(g, layer, v);
    lemma_filled_len(s);
    assert(g.size(layer) <= usize::MAX) by {
        if layer > 0 {
            assert(g.layer_wf(layer - 1));
        }
    }
    if free < s.len() {
        let t = s.update(free, x);
        assert(slots_wf(t, v, g.size(layer))) by {
            assert forall|i: int, j: int| 0 <= i <= j < t.len() && t[i] == NIL implies t[j]
                == NIL by {
                assert(s[i] == NIL);
                assert(s[j] == NIL);
            }
            assert forall|i: int, j: int|
                0 <= i < j < t.len() && #[trigger] t[i] == #[trigger] t[j] implies t[i] == NIL by {
                if i != free && j != free {
                    assert(s[i] == s[j]);
                } else if i == free {
                    assert(s[j] != x);
                } else {
                    assert(s[i] != x);
                }
            }
        }
        lemma_with_slots(g, layer, v, t);
    } else if s.len() > 0 {
        lemma_worst_slot(g, metric, layer, v, s.len() as int);
        let t = s.update(worst, x);
        assert(slots_wf(t, v, g.size(layer))) by {
            assert forall|i: int, j: int| 0 <= i <= j < t.len() && t[i] == NIL implies t[j]
                == NIL by {
                assert(s[i] != NIL);
            }
            assert forall|i: int, j: int|
                0 <= i < j < t.len() && #[trigger] t[i] == #[trigger] t[j] implies t[i] == NIL by {
                if i != worst && j != worst {
                    assert(s[i] == s[j]);
                    assert(s[i] != NIL);
                } else if i == worst {
                    assert(s[j] != x);
                } else {
                    assert(s[i] != x);
                }
            }
        }
        lemma_with_slots(g, layer, v, t);
        lemma_same_refl(g, layer);
    } else {
        lemma_same_refl(g, layer);
    }
}

/// A graph has the same nodes and lists as itself.
pub proof fn lemma_same_refl<T>(g: GraphView<T>, layer: nat)
    ensures
        g.same_nodes(g),
        g.same_elsewhere(g, layer),
        forall|v: int| g.same_but(g, layer, v),
{
}

} // verus!

verus! {

/// Replacing the adjacency list of a node twice leaves the second list.
pub proof fn lemma_with_slots_twice<T>(
    g: GraphView<T>,
    layer: nat,
    idx: int,
    a: Seq<usize>,
    b: Seq<usize>,
)
    requires
        layer <= g.top(),
        0 <= idx < g.size(layer),
    ensures
        g.with_slots(layer, idx, a).with_slots(layer, idx, b) == g.with_slots(layer, idx, b),
{
    let h = g.with_slots(layer, idx, a).with_slots(layer, idx, b);
    let k = g.with_slots(layer, idx, b);
    assert(h.zero =~= k.zero);
    if layer > 0 {
        assert(h.layers[layer - 1] =~= k.layers[layer - 1]);
    }
    assert(h.layers =~= k.layers);
}

/// Replacing the adjacency list of a node by itself changes nothing.
pub proof fn lemma_with_slots_same<T>(g: GraphView<T>, layer: nat, idx: int)
    requires
        layer <= g.top(),
        0 <= idx < g.size(layer),
    ensures
        g.with_slots(layer, idx, g.slots(layer, idx)) == g,
{
    let h = g.with_slots(layer, idx, g.slots(layer, idx));
    assert(h.zero =~= g.zero);
    if layer > 0 {
        assert(h.layers[layer - 1] =~= g.layers[layer - 1]);
    }
    assert(h.layers =~= g.layers);
}

} // verus!
