//! Insertion as a function of the graph: the new point gets its nodes, the nodes are
//! connected layer by layer, and layers are added for a point of a higher level.
use vstd::prelude::*;
use crate::graph::{
    beam, initial, lowered, never_named, search, slots_wf, GraphView, NodeView,
};
use crate::link::linked;
use crate::metric::Metric;
use crate::nodes::{empty_slots, NIL};
use crate::searcher::SearcherView;

verus! {

impl<T> GraphView<T> {
    /// The node that stands for the last point in a new layer on top of the graph.
    pub open spec fn summit(self) -> NodeView {
        NodeView {
            zero_node: (self.points.len() - 1) as usize,
            next_node: (self.size(self.top()) - 1) as usize,
            slots: empty_slots(self.m),
        }
    }

    /// The graph with a further point, which has a node without neighbours in the zero
    /// layer and in each layer that exists, up to layer `level`.
    pub open spec fn appended(self, q: T, level: nat) -> GraphView<T> {
        GraphView {
            points: self.points.push(q),
            zero: self.zero.push(empty_slots(self.m0)),
            layers: Seq::new(
                self.layers.len(),
                |l: int|
                    if l < level {
                        self.layers[l].push(
                            NodeView {
                                zero_node: self.points.len() as usize,
                                next_node: self.size(l as nat) as usize,
                                slots: empty_slots(self.m),
                            },
                        )
                    } else {
                        self.layers[l]
                    },
            ),
            ..self
        }
    }

    /// The graph with one more layer, which holds a node of the last point alone.
    pub open spec fn raised_once(self) -> GraphView<T> {
        GraphView { layers: self.layers.push(seq![self.summit()]), ..self }
    }

    /// The graph with as many more layers as it takes to reach layer `level`, each holding
    /// a node of the last point alone.
    pub open spec fn raised(self, level: nat) -> GraphView<T>
        decreases level - self.top(),
    {
        if self.top() >= level {
            self
        } else {
            self.raised_once().raised(level)
        }
    }

    /// The layers up to `layer` are the same in both graphs, and so are the points.
    pub open spec fn same_base(self, other: GraphView<T>, layer: nat) -> bool {
        &&& other.points == self.points
        &&& other.m == self.m
        &&& other.m0 == self.m0
        &&& other.zero == self.zero
        &&& layer <= self.top()
        &&& layer <= other.top()
        &&& forall|l: int| 0 <= l < layer ==> #[trigger] other.layers[l] == self.layers[l]
    }

    /// The last point has the last node of the layer, and that node has no neighbours and
    /// is the neighbour of none.
    pub open spec fn fresh_in(self, layer: nat) -> bool {
        &&& self.size(layer) >= 1
        &&& self.point_of(layer, self.size(layer) - 1) == self.points.len() - 1
        &&& self.slots(layer, self.size(layer) - 1) == empty_slots(self.degree(layer))
        &&& self.unlinked(layer, self.size(layer) - 1)
    }

    /// The last point has no node in the layer.
    pub open spec fn absent_in(self, layer: nat) -> bool {
        forall|idx: int|
            0 <= idx < self.size(layer) ==> #[trigger] self.point_of(layer, idx) < self.points.len()
                - 1
    }
}

/// The graph after the last point has been connected from `layer` down: each layer is
/// searched from the state that the layer above left, with the width that the layer has in
/// the descent; where the layer is at most `level`, the node of the last point is linked to
/// what the search found, before the search goes down.
pub open spec fn connected<Met: Metric<T>, T>(
    g: GraphView<T>,
    metric: Met,
    level: nat,
    width: nat,
    layer: nat,
    st: SearcherView,
) -> GraphView<T>
    decreases layer,
{
    let found = search(g, metric, g.points.last(), layer, beam(level, width, layer), st);
    let h = if layer <= level {
        linked(g, metric, layer, (g.size(layer) - 1) as usize, found.nearest)
    } else {
        g
    };
    if layer == 0 {
        h
    } else {
        connected(h, metric, level, width, (layer - 1) as nat, lowered(h, layer, found))
    }
}

/// The graph after a point is inserted at a level. The point gets the next id and a node in
/// each layer up to `level`; layers that did not exist before hold that node alone. In the
/// layers that existed, the nodes are searched for from the entry point of the graph as it
/// was, with a list of one above `level` and a list of `width` from `level` down, and linked.
/// The first point of all is linked to nothing.
pub open spec fn inserted<Met: Metric<T>, T>(
    g: GraphView<T>,
    metric: Met,
    q: T,
    level: nat,
    width: nat,
) -> GraphView<T> {
    let a = g.appended(q, level);
    if g.points.len() == 0 {
        a.raised(level)
    } else {
        connected(a.raised(level), metric, level, width, a.top(), initial(a, metric, q))
    }
}

/// Appending a point keeps the graph in order; the new nodes have no neighbours and are
/// neighbours of none, and the layers above `level` hold no node of the new point.
pub proof fn lemma_appended<T>(g: GraphView<T>, q: T, level: nat)
    requires
        g.wf(),
        g.points.len() < usize::MAX,
        forall|l: int|
            0 <= l < g.layers.len() && l < level ==> (#[trigger] g.layers[l]).len() < usize::MAX,
    ensures
        g.appended(q, level).wf(),
        g.appended(q, level).top() == g.top(),
        forall|layer: nat|
            layer <= g.top() && layer <= level ==> #[trigger] g.appended(q, level).fresh_in(layer),
        forall|layer: nat|
            layer <= g.top() && layer > level ==> #[trigger] g.appended(q, level).absent_in(layer),
        forall|layer: nat|
            layer <= g.top() ==> #[trigger] g.appended(q, level).size(layer) == g.size(layer) + (
            if layer <= level {
                1nat
            } else {
                0nat
            }),
        forall|layer: nat, idx: int|
            layer <= g.top() && 0 <= idx < g.size(layer) ==> #[trigger] g.appended(
                q,
                level,
            ).point_of(layer, idx) == g.point_of(layer, idx) && g.point_of(layer, idx)
                < g.points.len(),
{
    let a = g.appended(q, level);
    let id = g.points.len();
    assert forall|layer: nat, idx: int| layer <= g.top() && 0 <= idx < g.size(layer) implies (
    #[trigger] a.point_of(layer, idx)) == g.point_of(layer, idx) && g.point_of(layer, idx)
        < g.points.len() by {
        crate::graph::lemma_node_facts(g, layer, idx);
    }
    assert forall|idx: int| 0 <= idx < a.zero.len() implies (#[trigger] a.zero[idx]).len() == a.m0
        && slots_wf(a.zero[idx], idx, a.zero.len()) by {
        if idx < g.zero.len() {
            assert(a.zero[idx] == g.zero[idx]);
            assert(g.zero[idx].len() == g.m0);
        }
    }
    assert forall|l: int| 0 <= l < a.layers.len() implies #[trigger] a.layer_wf(l) by {
        assert(g.layer_wf(l));
        if l < level {
            assert(g.layers[l].len() < usize::MAX);
        }
        if l > 0 {
            assert(g.layer_wf(l - 1));
        }
        assert forall|idx: int| 0 <= idx < a.layers[l].len() implies #[trigger] a.node_wf(
            l,
            idx,
        ) by {
            if idx < g.layers[l].len() {
                assert(g.node_wf(l, idx));
                assert(a.layers[l][idx] == g.layers[l][idx]);
            }
        }
        assert forall|i: int, j: int| 0 <= i < j < a.layers[l].len() implies (
        #[trigger] a.layers[l][i]).zero_node < (#[trigger] a.layers[l][j]).zero_node by {
            assert(g.node_wf(l, i));
            if j < g.layers[l].len() {
                assert(g.layers[l][i].zero_node < g.layers[l][j].zero_node);
            }
        }
    }
    assert forall|layer: nat| layer <= g.top() && layer <= level implies #[trigger] a.fresh_in(
        layer,
    ) by {
        let x = a.size(layer) - 1;
        assert forall|u: int, k: int|
            0 <= u < a.size(layer) && 0 <= k < a.slots(layer, u).len() implies (#[trigger] a.slots(
            layer,
            u,
        )[k]) != x by {
            if u < g.size(layer) {
                crate::graph::lemma_node_facts(g, layer, u);
                assert(a.slots(layer, u) == g.slots(layer, u));
                let s = g.slots(layer, u);
                if s[k] != NIL {
                    assert(s[k] < g.size(layer));
                }
            }
        }
    }
    assert forall|layer: nat| layer <= g.top() && layer > level implies #[trigger] a.absent_in(
        layer,
    ) by {
        assert forall|idx: int| 0 <= idx < a.size(layer) implies #[trigger] a.point_of(layer, idx)
            < a.points.len() - 1 by {
            crate::graph::lemma_node_facts(g, layer, idx);
        }
    }
}

/// A further layer for the last point keeps the graph in order, if the last point has the
/// last node of the highest layer so far.
pub proof fn lemma_raised_once<T>(g: GraphView<T>)
    requires
        g.wf(),
        g.size(g.top()) >= 1,
        g.point_of(g.top(), g.size(g.top()) - 1) == g.points.len() - 1,
    ensures
        g.raised_once().wf(),
        g.same_base(g.raised_once(), g.top()),
        g.raised_once().top() == g.top() + 1,
        g.raised_once().size(g.top() + 1) == 1,
        g.raised_once().point_of(g.top() + 1, 0) == g.points.len() - 1,
        g.raised_once().fresh_in(g.top() + 1),
{
    let r = g.raised_once();
    let t = g.top() as int;
    if t > 0 {
        assert(g.layer_wf(t - 1));
    }
    assert forall|idx: int| 0 <= idx < r.zero.len() implies (#[trigger] r.zero[idx]).len() == r.m0
        && slots_wf(r.zero[idx], idx, r.zero.len()) by {
        assert(g.zero[idx].len() == g.m0);
    }
    assert forall|l: int| 0 <= l < r.layers.len() implies #[trigger] r.layer_wf(l) by {
        if l < t {
            assert(g.layer_wf(l));
            assert(r.layers[l] == g.layers[l]);
            assert forall|idx: int| 0 <= idx < r.layers[l].len() implies #[trigger] r.node_wf(
                l,
                idx,
            ) by {
                assert(g.node_wf(l, idx));
            }
        } else {
            assert(r.layers[l] == seq![g.summit()]);
            assert(r.node_wf(l, 0));
        }
    }
}

/// A node is not named in a layer where it is the neighbour of none, and neither is a point
/// in a layer where it has no node.
pub proof fn lemma_never_named<T>(g: GraphView<T>, layer: nat)
    requires
        g.wf(),
        layer <= g.top(),
        g.points.len() >= 1,
        g.fresh_in(layer) || g.absent_in(layer),
    ensures
        never_named(g, layer, (g.points.len() - 1) as usize),
{
    let p = (g.points.len() - 1) as usize;
    assert forall|u: int, k: int|
        0 <= u < g.size(layer) && 0 <= k < g.slots(layer, u).len() && (#[trigger] g.slots(
            layer,
            u,
        )[k]) != NIL implies g.point_of(layer, g.slots(layer, u)[k] as int) != p by {
        let v = g.slots(layer, u)[k];
        crate::graph::lemma_node_facts(g, layer, u);
        assert(v < g.size(layer));
        if g.fresh_in(layer) {
            crate::graph::lemma_point_injective(g, layer, v as int, g.size(layer) - 1);
        } else {
            assert(g.point_of(layer, v as int) < g.points.len() - 1);
        }
    }
}

} // verus!

verus! {

/// Raising a graph to a level leaves its points and the layers it had as they were, and
/// puts a node of the last point, alone, into each layer added.
pub proof fn lemma_raised<T>(g: GraphView<T>, level: nat)
    ensures
        g.raised(level).points == g.points,
        g.raised(level).zero == g.zero,
        g.raised(level).m == g.m,
        g.raised(level).m0 == g.m0,
        g.raised(level).top() == if level > g.top() {
            level
        } else {
            g.top()
        },
        forall|l: int| 0 <= l < g.top() ==> #[trigger] g.raised(level).layers[l] == g.layers[l],
        forall|l: int|
            g.top() <= l < g.raised(level).top() ==> (#[trigger] g.raised(level).layers[l]).len()
                == 1 && g.raised(level).layers[l][0].zero_node == (g.points.len() - 1) as usize,
    decreases level - g.top(),
{
    if g.top() < level {
        let r = g.raised_once();
        lemma_raised(r, level);
        assert forall|l: int| 0 <= l < g.top() implies #[trigger] g.raised(level).layers[l]
            == g.layers[l] by {
            assert(r.layers[l] == g.layers[l]);
        }
        assert forall|l: int| g.top() <= l < g.raised(level).top() implies (
        #[trigger] g.raised(level).layers[l]).len() == 1 && g.raised(level).layers[l][0].zero_node
            == (g.points.len() - 1) as usize by {
            if l == g.top() {
                assert(r.layers[l] == seq![g.summit()]);
            }
        }
    }
}

/// The graph `h` is the graph `g` grown by the point `q` at a level: the new point has the
/// next id and a node in exactly the layers up to `level`, the highest layer is the higher
/// of `level` and the highest layer before, and every point and node that was there is there
/// still, in the layers and at the places where it was.
pub open spec fn grown<T>(g: GraphView<T>, h: GraphView<T>, q: T, level: nat) -> bool {
    &&& h.points == g.points.push(q)
    &&& h.top() == if level > g.top() {
        level
    } else {
        g.top()
    }
    &&& forall|layer: nat|
        layer <= h.top() ==> (#[trigger] h.present(layer, g.points.len() as usize) <==> layer
            <= level)
    &&& forall|layer: nat, p: usize|
        layer <= h.top() && p < g.points.len() ==> (#[trigger] h.present(layer, p) <==> layer
            <= g.top() && g.present(layer, p))
    &&& forall|layer: nat, idx: int|
        layer <= g.top() && 0 <= idx < g.size(layer) ==> idx < h.size(layer)
            && #[trigger] h.point_of(layer, idx) == g.point_of(layer, idx)
}

/// A graph that has the nodes of another graph with one point appended at a level is that
/// graph grown by the point.
pub proof fn lemma_insert_levels<T>(g: GraphView<T>, h: GraphView<T>, q: T, level: nat)
    requires
        g.wf(),
        g.appended(q, level).raised(level).same_nodes(h),
    ensures
        grown(g, h, q, level),
{
    let a = g.appended(q, level);
    let s = a.raised(level);
    let id = g.points.len() as usize;
    lemma_raised(a, level);
    assert(g.points.len() <= usize::MAX);
    assert forall|layer: nat, idx: int| layer <= h.top() && 0 <= idx < h.size(layer) implies (
    layer <= g.top() && idx < g.size(layer) ==> h.point_of(layer, idx) == g.point_of(layer, idx)
        && g.point_of(layer, idx) < id) && ((layer > g.top() || idx >= g.size(layer))
        ==> h.point_of(layer, idx) == id && layer <= level) by {
        crate::link::lemma_same_nodes(s, h, layer, idx);
        if layer > 0 {
            let l = layer - 1;
            if l < g.top() {
                assert(s.layers[l] == a.layers[l]);
                assert(g.layer_wf(l));
                if idx < g.size(layer) {
                    assert(g.node_wf(l, idx));
                }
            } else {
                assert(s.layers[l].len() == 1);
            }
        }
    }
    assert forall|layer: nat| layer <= h.top() implies (#[trigger] h.present(layer, id) <==> layer
        <= level) by {
        crate::link::lemma_same_nodes(s, h, layer, 0);
        if layer <= level {
            let w = h.size(layer) - 1;
            if layer > 0 {
                let l = layer - 1;
                if l < g.top() {
                    assert(s.layers[l] == a.layers[l]);
                } else {
                    assert(s.layers[l].len() == 1);
                }
            }
            assert(0 <= w < h.size(layer));
            assert(h.point_of(layer, w) == id);
        } else {
            if h.present(layer, id) {
                let idx = choose|idx: int| 0 <= idx < h.size(layer) && h.point_of(layer, idx) == id;
                assert(layer <= g.top());
                assert(s.layers[layer - 1] == a.layers[layer - 1]);
                assert(idx < g.size(layer));
            }
        }
    }
    assert forall|layer: nat, p: usize| layer <= h.top() && p < g.points.len() implies (
    #[trigger] h.present(layer, p) <==> layer <= g.top() && g.present(layer, p)) by {
        crate::link::lemma_same_nodes(s, h, layer, 0);
        if h.present(layer, p) {
            let idx = choose|idx: int| 0 <= idx < h.size(layer) && h.point_of(layer, idx) == p;
            assert(layer <= g.top() && idx < g.size(layer));
            assert(g.point_of(layer, idx) == p);
        }
        if layer <= g.top() && g.present(layer, p) {
            let idx = choose|idx: int| 0 <= idx < g.size(layer) && g.point_of(layer, idx) == p;
            if layer > 0 {
                assert(s.layers[layer - 1] == a.layers[layer - 1]);
            }
            assert(idx < h.size(layer));
            assert(h.point_of(layer, idx) == p);
        }
    }
    assert forall|layer: nat, idx: int| layer <= g.top() && 0 <= idx < g.size(layer) implies idx
        < h.size(layer) && #[trigger] h.point_of(layer, idx) == g.point_of(layer, idx) by {
        crate::link::lemma_same_nodes(s, h, layer, idx);
        if layer > 0 {
            assert(s.layers[layer - 1] == a.layers[layer - 1]);
        }
    }
}

} // verus!
