//! Checks that tell whether adjacency lists and layers that come from outside, such as the
//! parts of an index that was written out, form a graph that is in order.
use vstd::prelude::*;
use crate::graph::{slots_wf, GraphView};
use crate::nodes::{compacted, node_view, NeighborNodes, Node, NIL};

verus! {

/// The graph that the parts of an index make up.
pub open spec fn graph_of<T, const M: usize, const M0: usize>(
    points: Seq<T>,
    zero: Seq<NeighborNodes<M0>>,
    layers: Seq<Vec<Node<M>>>,
) -> GraphView<T> {
    GraphView {
        points,
        zero: Seq::new(zero.len(), |i: int| zero[i].neighbors@),
        layers: Seq::new(
            layers.len(),
            |l: int| Seq::new(layers[l]@.len(), |i: int| node_view(layers[l]@[i])),
        ),
        m: M as nat,
        m0: M0 as nat,
    }
}

/// Whether an adjacency list is in order for the node `own` of a layer of `size` nodes.
pub fn slots_in_order<const N: usize>(list: &NeighborNodes<N>, own: usize, size: usize) -> (ok:
    bool)
    ensures
        ok == slots_wf(list.neighbors@, own as int, size as nat),
{
    let ghost s = list.neighbors@;
    let mut used: usize = 0;
    while used < N && list.neighbors[used] != NIL
        invariant
            0 <= used <= N,
            s == list.neighbors@,
            s.len() == N,
            forall|i: int| 0 <= i < used ==> s[i] != NIL,
        decreases N - used,
    {
        used += 1;
    }
    // Every slot from the first empty one on has to be empty.
    let mut k: usize = used;
    while k < N
        invariant
            used <= k <= N,
            s == list.neighbors@,
            s.len() == N,
            forall|i: int| 0 <= i < used ==> s[i] != NIL,
            forall|i: int| used <= i < k ==> s[i] == NIL,
            used < N ==> s[used as int] == NIL,
        decreases N - k,
    {
        if list.neighbors[k] != NIL {
            proof {
                assert(s[used as int] == NIL && s[k as int] != NIL);
                assert(!compacted(s));
            }
            return false;
        }
        k += 1;
    }
    assert(compacted(s));
    let mut i: usize = 0;
    while i < used
        invariant
            0 <= i <= used <= N,
            s == list.neighbors@,
            s.len() == N,
            compacted(s),
            forall|a: int| 0 <= a < used ==> s[a] != NIL,
            forall|a: int| used <= a < N ==> s[a] == NIL,
            forall|a: int| 0 <= a < i ==> s[a] < size && s[a] != own,
            forall|a: int, b: int| 0 <= a < b < used && a < i ==> s[a] != s[b],
        decreases used - i,
    {
        let n = list.neighbors[i];
        if n >= size || n == own {
            return false;
        }
        let mut j: usize = i + 1;
        while j < used
            invariant
                i < j <= used <= N,
                s == list.neighbors@,
                s.len() == N,
                n == s[i as int],
                n != NIL,
                forall|b: int| i < b < j ==> s[i as int] != s[b],
            decreases used - j,
        {
            if list.neighbors[j] == n {
                proof {
                    assert(s[i as int] == s[j as int] && s[i as int] != NIL);
                }
                return false;
            }
            j += 1;
        }
        i += 1;
    }
    proof {
        if used < N && own == NIL {
            assert(s[used as int] == own);
        }
    }
    if used < N && own == NIL {
        return false;
    }
    proof {
        assert forall|a: int, b: int|
            0 <= a < b < s.len() && #[trigger] s[a] == #[trigger] s[b] implies s[a] == NIL by {
            if a < used && b >= used {
                assert(s[b] == NIL);
            }
        }
    }
    true
}

/// Whether every adjacency list of a zero layer is in order.
pub fn zero_in_order<const M0: usize>(zero: &Vec<NeighborNodes<M0>>) -> (ok: bool)
    ensures
        ok == forall|idx: int|
            0 <= idx < zero@.len() ==> slots_wf(
                (#[trigger] zero@[idx]).neighbors@,
                idx,
                zero@.len(),
            ),
{
    let size = zero.len();
    let mut idx: usize = 0;
    while idx < size
        invariant
            0 <= idx <= size,
            size == zero@.len(),
            forall|i: int|
                0 <= i < idx ==> slots_wf((#[trigger] zero@[i]).neighbors@, i, zero@.len()),
        decreases size - idx,
    {
        if !slots_in_order(&zero[idx], idx, size) {
            return false;
        }
        idx += 1;
    }
    true
}

/// The nodes of the layer below a layer, unless that is the zero layer.
pub open spec fn nodes_below<const M: usize>(below: Option<&Vec<Node<M>>>) -> Option<
    Seq<Node<M>>,
> {
    match below {
        Some(b) => Some(b@),
        None => None,
    }
}

/// How many nodes the layer below a layer holds, in an index of `points` points.
pub open spec fn size_below<const M: usize>(below: Option<Seq<Node<M>>>, points: nat) -> nat {
    match below {
        Some(b) => b.len(),
        None => points,
    }
}

/// The point that the node at `i` of the layer below a layer stands for.
pub open spec fn point_below<const M: usize>(below: Option<Seq<Node<M>>>, i: int) -> usize {
    match below {
        Some(b) => b[i].zero_node,
        None => i as usize,
    }
}

/// What is asked of the node at `idx` of a layer in an index of `points` points: its
/// adjacency list is in order, it stands for a point that the layer below holds at the
/// place that the node names, and for a later point than the node before it.
pub open spec fn node_in_order<const M: usize>(
    layer: Seq<Node<M>>,
    idx: int,
    points: nat,
    below: Option<Seq<Node<M>>>,
) -> bool {
    let node = layer[idx];
    &&& slots_wf(node.neighbors.neighbors@, idx, layer.len())
    &&& node.zero_node < points
    &&& node.next_node < size_below(below, points)
    &&& point_below(below, node.next_node as int) == node.zero_node
    &&& idx > 0 ==> layer[idx - 1].zero_node < node.zero_node
}

/// Whether a layer above the zero layer is in order: it is not empty and every node of it
/// is in order. `below` is the layer below it, unless that is the zero layer.
pub fn layer_in_order<const M: usize>(
    layer: &Vec<Node<M>>,
    points: usize,
    below: Option<&Vec<Node<M>>>,
) -> (ok: bool)
    ensures
        ok == (layer@.len() >= 1 && forall|idx: int|
            0 <= idx < layer@.len() ==> #[trigger] node_in_order(
                layer@,
                idx,
                points as nat,
                nodes_below(below),
            )),
{
    let size = layer.len();
    if size == 0 {
        return false;
    }
    let below_size: usize = match below {
        Some(b) => b.len(),
        None => points,
    };
    let mut idx: usize = 0;
    while idx < size
        invariant
            0 <= idx <= size,
            size == layer@.len(),
            below_size == size_below(nodes_below(below), points as nat),
            forall|i: int|
                0 <= i < idx ==> #[trigger] node_in_order(
                    layer@,
                    i,
                    points as nat,
                    nodes_below(below),
                ),
        decreases size - idx,
    {
        let node = &layer[idx];
        let ok = slots_in_order(&node.neighbors, idx, size) && node.zero_node < points
            && node.next_node < below_size && match below {
            Some(b) => b[node.next_node].zero_node == node.zero_node,
            None => node.next_node == node.zero_node,
        } && (idx == 0 || layer[idx - 1].zero_node < node.zero_node);
        if !ok {
            proof {
                assert(!node_in_order(layer@, idx as int, points as nat, nodes_below(below)));
            }
            return false;
        }
        idx += 1;
    }
    true
}

/// The nodes of the layer below the layer `l + 1`, unless that is the zero layer.
pub open spec fn layer_below<const M: usize>(layers: Seq<Vec<Node<M>>>, l: int) -> Option<
    Seq<Node<M>>,
> {
    if l == 0 {
        None
    } else {
        Some(layers[l - 1]@)
    }
}

/// In a layer whose nodes each stand for a later point than the node before, a later node
/// stands for a later point.
pub proof fn lemma_later_points<const M: usize>(
    layer: Seq<Node<M>>,
    points: nat,
    below: Option<Seq<Node<M>>>,
    i: int,
    j: int,
)
    requires
        0 <= i < j < layer.len(),
        forall|idx: int| 0 <= idx < layer.len() ==> #[trigger] node_in_order(layer, idx, points, below),
    ensures
        layer[i].zero_node < layer[j].zero_node,
    decreases j - i,
{
    assert(node_in_order(layer, j, points, below));
    if i < j - 1 {
        lemma_later_points(layer, points, below, i, j - 1);
    }
}

/// A layer above the zero layer is in order as a part of the graph exactly if it is not
/// empty and each of its nodes is in order.
pub proof fn lemma_layer_in_order<T, const M: usize, const M0: usize>(
    points: Seq<T>,
    zero: Seq<NeighborNodes<M0>>,
    layers: Seq<Vec<Node<M>>>,
    l: int,
)
    requires
        0 <= l < layers.len(),
        zero.len() == points.len(),
        points.len() <= usize::MAX,
        layers[l]@.len() <= usize::MAX,
    ensures
        graph_of(points, zero, layers).layer_wf(l) <==> (layers[l]@.len() >= 1 && forall|idx: int|
            0 <= idx < layers[l]@.len() ==> #[trigger] node_in_order(
                layers[l]@,
                idx,
                points.len(),
                layer_below(layers, l),
            )),
{
    let g = graph_of(points, zero, layers);
    let layer = layers[l]@;
    let below = layer_below(layers, l);
    assert(g.layers[l].len() == layer.len());
    if g.layer_wf(l) {
        assert forall|idx: int| 0 <= idx < layer.len() implies #[trigger] node_in_order(
            layer,
            idx,
            points.len(),
            below,
        ) by {
            assert(g.node_wf(l, idx));
            assert(g.layers[l][idx] == node_view(layer[idx]));
            if idx > 0 {
                assert(g.layers[l][idx - 1] == node_view(layer[idx - 1]));
                assert(g.layers[l][idx - 1].zero_node < g.layers[l][idx].zero_node);
            }
            if l > 0 {
                assert(g.layers[l - 1][layer[idx].next_node as int] == node_view(
                    layers[l - 1]@[layer[idx].next_node as int],
                ));
            }
        }
    }
    if layer.len() >= 1 && forall|idx: int|
        0 <= idx < layer.len() ==> #[trigger] node_in_order(layer, idx, points.len(), below) {
        assert forall|idx: int| 0 <= idx < g.layers[l].len() implies #[trigger] g.node_wf(
            l,
            idx,
        ) by {
            assert(node_in_order(layer, idx, points.len(), below));
            assert(g.layers[l][idx] == node_view(layer[idx]));
            if l > 0 {
                assert(g.layers[l - 1][layer[idx].next_node as int] == node_view(
                    layers[l - 1]@[layer[idx].next_node as int],
                ));
            }
        }
        assert forall|i: int, j: int| 0 <= i < j < g.layers[l].len() implies (
        #[trigger] g.layers[l][i]).zero_node < (#[trigger] g.layers[l][j]).zero_node by {
            lemma_later_points(layer, points.len(), below, i, j);
            assert(g.layers[l][i] == node_view(layer[i]));
            assert(g.layers[l][j] == node_view(layer[j]));
        }
    }
}

} // verus!
