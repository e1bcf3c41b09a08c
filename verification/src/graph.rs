//! The graph of an index as plain mathematical values, what it means for it to be in
//! order, and the search of a layer and the descent through the layers as functions of it.
use vstd::prelude::*;
use crate::metric::{ascending, descending, distinct_indices, Metric, Neighbor};
use crate::nodes::{compacted, NIL};
use crate::searcher::{enqueue, is_kept, keep_best, lemma_enqueue, lemma_keep_best, SearcherView};

verus! {

/// A node of a layer above the zero layer, as plain values.
pub struct NodeView {
    /// The point that the node stands for.
    pub zero_node: usize,
    /// The place of the same point in the layer below.
    pub next_node: usize,
    /// The adjacency slots of the node.
    pub slots: Seq<usize>,
}

/// The layered graph of an index, as plain values. Layer 0 holds every point, at the place
/// of its id; layer `l + 1` is `layers[l]`.
pub struct GraphView<T> {
    /// The points, by id.
    pub points: Seq<T>,
    /// The adjacency slots of the zero layer, by point id.
    pub zero: Seq<Seq<usize>>,
    /// The layers above the zero layer, bottom up.
    pub layers: Seq<Seq<NodeView>>,
    /// The number of adjacency slots of a node above the zero layer.
    pub m: nat,
    /// The number of adjacency slots of a node in the zero layer.
    pub m0: nat,
}

/// An adjacency list is in order: slots in use come first, every neighbour is a node of the
/// layer, none is the node itself and none occurs twice.
pub open spec fn slots_wf(slots: Seq<usize>, own: int, size: nat) -> bool {
    &&& compacted(slots)
    &&& forall|i: int| 0 <= i < slots.len() && #[trigger] slots[i] != NIL ==> slots[i] < size
    &&& forall|i: int| 0 <= i < slots.len() ==> #[trigger] slots[i] != own
    &&& forall|i: int, j: int|
        0 <= i < j < slots.len() && #[trigger] slots[i] == #[trigger] slots[j] ==> slots[i] == NIL
}

impl<T> GraphView<T> {
    /// The number of the highest layer.
    pub open spec fn top(self) -> nat {
        self.layers.len()
    }

    /// How many nodes a layer holds.
    pub open spec fn size(self, layer: nat) -> nat {
        if layer == 0 {
            self.zero.len()
        } else {
            self.layers[layer - 1].len()
        }
    }

    /// How many adjacency slots a node of a layer has.
    pub open spec fn degree(self, layer: nat) -> nat {
        if layer == 0 {
            self.m0
        } else {
            self.m
        }
    }

    /// The adjacency slots of a node.
    pub open spec fn slots(self, layer: nat, idx: int) -> Seq<usize> {
        if layer == 0 {
            self.zero[idx]
        } else {
            self.layers[layer - 1][idx].slots
        }
    }

    /// The id of the point that a node stands for.
    pub open spec fn point_of(self, layer: nat, idx: int) -> usize {
        if layer == 0 {
            idx as usize
        } else {
            self.layers[layer - 1][idx].zero_node
        }
    }

    /// The place, one layer down, of the point that a node of a layer above zero stands for.
    pub open spec fn below(self, layer: nat, idx: int) -> usize {
        self.layers[layer - 1][idx].next_node
    }

    /// The point at which every search starts: the first node of the highest layer.
    pub open spec fn entry_point(self) -> usize {
        self.point_of(self.top(), 0)
    }

    /// Whether a point has a node in a layer.
    pub open spec fn present(self, layer: nat, point: usize) -> bool {
        exists|idx: int| 0 <= idx < self.size(layer) && self.point_of(layer, idx) == point
    }

    /// A node above the zero layer is in order: its adjacency list is, and it stands for a
    /// point that the layer below holds at the place the node names.
    pub open spec fn node_wf(self, l: int, idx: int) -> bool {
        let node = self.layers[l][idx];
        &&& node.slots.len() == self.m
        &&& slots_wf(node.slots, idx, self.layers[l].len())
        &&& node.zero_node < self.zero.len()
        &&& node.next_node < self.size(l as nat)
        &&& self.point_of(l as nat, node.next_node as int) == node.zero_node
    }

    /// Layer `l + 1` is in order: it is not empty, its nodes are in order and they stand for
    /// ever later points.
    pub open spec fn layer_wf(self, l: int) -> bool {
        &&& 1 <= self.layers[l].len() <= usize::MAX
        &&& forall|idx: int| 0 <= idx < self.layers[l].len() ==> #[trigger] self.node_wf(l, idx)
        &&& forall|i: int, j: int|
            0 <= i < j < self.layers[l].len() ==> (#[trigger] self.layers[l][i]).zero_node < (
            #[trigger] self.layers[l][j]).zero_node
    }

    /// The graph is in order.
    pub open spec fn wf(self) -> bool {
        &&& self.points.len() <= usize::MAX
        &&& self.zero.len() == self.points.len()
        &&& forall|idx: int|
            0 <= idx < self.zero.len() ==> (#[trigger] self.zero[idx]).len() == self.m0
                && slots_wf(self.zero[idx], idx, self.zero.len())
        &&& forall|l: int| 0 <= l < self.layers.len() ==> #[trigger] self.layer_wf(l)
    }

    /// No adjacency list of the layer names the node.
    pub open spec fn unlinked(self, layer: nat, idx: int) -> bool {
        forall|u: int, k: int|
            0 <= u < self.size(layer) && 0 <= k < self.slots(layer, u).len() ==> (
            #[trigger] self.slots(layer, u)[k]) != idx
    }
}

/// In a graph that is in order, the adjacency list of every node is in order and every node
/// stands for a point of the index.
pub proof fn lemma_node_facts<T>(g: GraphView<T>, layer: nat, idx: int)
    requires
        g.wf(),
        layer <= g.top(),
        0 <= idx < g.size(layer),
    ensures
        g.slots(layer, idx).len() == g.degree(layer),
        slots_wf(g.slots(layer, idx), idx, g.size(layer)),
        g.point_of(layer, idx) < g.points.len(),
        layer > 0 ==> g.below(layer, idx) < g.size((layer - 1) as nat) && g.point_of(
            (layer - 1) as nat,
            g.below(layer, idx) as int,
        ) == g.point_of(layer, idx),
{
    if layer == 0 {
        assert(g.zero[idx].len() == g.m0);
    } else {
        assert(g.layer_wf(layer - 1));
        assert(g.node_wf(layer - 1, idx));
    }
}

/// How many of the points `0 .. n` a set of met points leaves out.
pub open spec fn count_unseen(n: nat, seen: Set<usize>) -> nat
    decreases n,
{
    if n == 0 {
        0
    } else {
        count_unseen((n - 1) as nat, seen) + if seen.contains((n - 1) as usize) {
            0nat
        } else {
            1nat
        }
    }
}

/// Meeting a point leaves one point fewer unmet if the point is one of `0 .. n` and was not
/// met before, and as many as before otherwise.
pub proof fn lemma_count_unseen_insert(n: nat, seen: Set<usize>, p: usize)
    requires
        n <= usize::MAX,
    ensures
        p < n && !seen.contains(p) ==> count_unseen(n, seen.insert(p)) + 1 == count_unseen(
            n,
            seen,
        ),
        !(p < n && !seen.contains(p)) ==> count_unseen(n, seen.insert(p)) == count_unseen(n, seen),
    decreases n,
{
    if n > 0 {
        lemma_count_unseen_insert((n - 1) as nat, seen, p);
    }
}

/// A search state fits a layer: every node it names is a node of the layer, carries its
/// true distance from the query and stands for a point already met; the list of the best is
/// ascending and names no node twice, and the frontier is descending.
pub open spec fn state_ok<Met: Metric<T>, T>(
    g: GraphView<T>,
    metric: Met,
    q: T,
    layer: nat,
    st: SearcherView,
) -> bool {
    &&& entries_ok(g, metric, q, layer, st.nearest, st.seen)
    &&& entries_ok(g, metric, q, layer, st.candidates, st.seen)
    &&& ascending(st.nearest)
    &&& descending(st.candidates)
    &&& distinct_indices(st.nearest)
}

/// Every entry of the list names a node of the layer, with its true distance from the query
/// and a point already met.
pub open spec fn entries_ok<Met: Metric<T>, T>(
    g: GraphView<T>,
    metric: Met,
    q: T,
    layer: nat,
    list: Seq<Neighbor>,
    seen: Set<usize>,
) -> bool {
    forall|i: int|
        0 <= i < list.len() ==> entry_ok(g, metric, q, layer, #[trigger] list[i], seen)
}

/// The entry names a node of the layer, with its true distance from the query and a point
/// already met.
pub open spec fn entry_ok<Met: Metric<T>, T>(
    g: GraphView<T>,
    metric: Met,
    q: T,
    layer: nat,
    e: Neighbor,
    seen: Set<usize>,
) -> bool {
    &&& e.index < g.size(layer)
    &&& e.distance == metric.dist(&q, &g.points[g.point_of(layer, e.index as int) as int])
    &&& seen.contains(g.point_of(layer, e.index as int))
}

/// The search state after the search looks at one neighbour of the node it expands: a point
/// met before changes nothing; a new point is marked as met and offered to the list of the
/// best, and joins the frontier if the list takes it.
pub open spec fn visit<Met: Metric<T>, T>(
    g: GraphView<T>,
    metric: Met,
    q: T,
    layer: nat,
    cap: nat,
    st: SearcherView,
    v: usize,
) -> SearcherView {
    let p = g.point_of(layer, v as int);
    if st.seen.contains(p) {
        st
    } else {
        let n = Neighbor { index: v, distance: metric.dist(&q, &g.points[p as int]) };
        SearcherView {
            candidates: if is_kept(st.nearest, cap, n) {
                enqueue(st.candidates, n)
            } else {
                st.candidates
            },
            nearest: keep_best(st.nearest, cap, n),
            seen: st.seen.insert(p),
        }
    }
}

/// The search state after the search has looked at the neighbours in the slots from `from`
/// on, in slot order, up to the first empty slot.
pub open spec fn expand<Met: Metric<T>, T>(
    g: GraphView<T>,
    metric: Met,
    q: T,
    layer: nat,
    cap: nat,
    st: SearcherView,
    slots: Seq<usize>,
    from: int,
) -> SearcherView
    decreases slots.len() - from,
{
    if from < 0 || from >= slots.len() || slots[from] == NIL {
        st
    } else {
        expand(g, metric, q, layer, cap, visit(g, metric, q, layer, cap, st, slots[from]), slots, from + 1)
    }
}

/// Every entry of the list names a node of the layer.
pub open spec fn in_layer<T>(g: GraphView<T>, layer: nat, list: Seq<Neighbor>) -> bool {
    forall|i: int| 0 <= i < list.len() ==> (#[trigger] list[i]).index < g.size(layer)
}

/// Looking at one neighbour keeps a fitting state fitting.
pub proof fn lemma_visit_ok<Met: Metric<T>, T>(
    g: GraphView<T>,
    metric: Met,
    q: T,
    layer: nat,
    cap: nat,
    st: SearcherView,
    v: usize,
)
    requires
        g.wf(),
        layer <= g.top(),
        v < g.size(layer),
        state_ok(g, metric, q, layer, st),
    ensures
        state_ok(g, metric, q, layer, visit(g, metric, q, layer, cap, st, v)),
        st.nearest.len() <= cap ==> visit(g, metric, q, layer, cap, st, v).nearest.len() <= cap,
        visit(g, metric, q, layer, cap, st, v).nearest.len() >= st.nearest.len() || st.nearest.len()
            > cap,
        st.seen.subset_of(visit(g, metric, q, layer, cap, st, v).seen),
        st.nearest.len() > 0 ==> visit(g, metric, q, layer, cap, st, v).nearest.len() > 0
            && visit(g, metric, q, layer, cap, st, v).nearest[0].distance
            <= st.nearest[0].distance,
{
    let p = g.point_of(layer, v as int);
    let r = visit(g, metric, q, layer, cap, st, v);
    lemma_node_facts(g, layer, v as int);
    if !st.seen.contains(p) {
        let n = Neighbor { index: v, distance: metric.dist(&q, &g.points[p as int]) };
        lemma_keep_best(st.nearest, cap, n);
        lemma_enqueue(st.candidates, n);
        crate::metric::lemma_rank_le(st.nearest, n.distance);
        crate::metric::lemma_rank_gt(st.candidates, n.distance);
        assert(entry_ok(g, metric, q, layer, n, r.seen));
        assert forall|i: int| 0 <= i < r.nearest.len() implies entry_ok(
            g,
            metric,
            q,
            layer,
            #[trigger] r.nearest[i],
            r.seen,
        ) by {
            if r.nearest[i] != n {
                let j = choose|j: int| 0 <= j < st.nearest.len() && st.nearest[j] == r.nearest[i];
                assert(entry_ok(g, metric, q, layer, st.nearest[j], st.seen));
            }
        }
        assert forall|i: int| 0 <= i < r.candidates.len() implies entry_ok(
            g,
            metric,
            q,
            layer,
            #[trigger] r.candidates[i],
            r.seen,
        ) by {
            if is_kept(st.nearest, cap, n) {
                let pos = crate::metric::rank_gt(st.candidates, n.distance) as int;
                if i < pos {
                    assert(r.candidates[i] == st.candidates[i]);
                    assert(entry_ok(g, metric, q, layer, st.candidates[i], st.seen));
                } else if i > pos {
                    assert(r.candidates[i] == st.candidates[i - 1]);
                    assert(entry_ok(g, metric, q, layer, st.candidates[i - 1], st.seen));
                }
            } else {
                assert(entry_ok(g, metric, q, layer, st.candidates[i], st.seen));
            }
        }
        assert(distinct_indices(r.nearest)) by {
            if is_kept(st.nearest, cap, n) {
                let pos = crate::metric::rank_le(st.nearest, n.distance) as int;
                assert forall|i: int, j: int| 0 <= i < j < r.nearest.len() implies r.nearest[i].index
                    != r.nearest[j].index by {
                    let a = if i < pos {
                        i
                    } else {
                        i - 1
                    };
                    let b = if j < pos {
                        j
                    } else {
                        j - 1
                    };
                    if i != pos {
                        assert(r.nearest[i] == st.nearest[a]);
                        assert(entry_ok(g, metric, q, layer, st.nearest[a], st.seen));
                    }
                    if j != pos {
                        assert(r.nearest[j] == st.nearest[b]);
                        assert(entry_ok(g, metric, q, layer, st.nearest[b], st.seen));
                    }
                }
            }
        }
        if st.nearest.len() > 0 {
            if is_kept(st.nearest, cap, n) {
                let pos = crate::metric::rank_le(st.nearest, n.distance) as int;
                if pos > 0 {
                    assert(r.nearest[0] == st.nearest[0]);
                }
            }
        }
    }
}

/// Looking at the neighbours of a node keeps a fitting state fitting, and either meets a
/// new point or leaves the frontier as it was.
pub proof fn lemma_expand_ok<Met: Metric<T>, T>(
    g: GraphView<T>,
    metric: Met,
    q: T,
    layer: nat,
    cap: nat,
    st: SearcherView,
    slots: Seq<usize>,
    from: int,
)
    requires
        g.wf(),
        layer <= g.top(),
        0 <= from,
        forall|i: int| 0 <= i < slots.len() && #[trigger] slots[i] != NIL ==> slots[i] < g.size(layer),
        state_ok(g, metric, q, layer, st),
    ensures
        state_ok(g, metric, q, layer, expand(g, metric, q, layer, cap, st, slots, from)),
        st.nearest.len() <= cap ==> expand(g, metric, q, layer, cap, st, slots, from).nearest.len()
            <= cap,
        expand(g, metric, q, layer, cap, st, slots, from).nearest.len() >= st.nearest.len()
            || st.nearest.len() > cap,
        st.seen.subset_of(expand(g, metric, q, layer, cap, st, slots, from).seen),
        st.nearest.len() > 0 ==> expand(
            g,
            metric,
            q,
            layer,
            cap,
            st,
            slots,
            from,
        ).nearest.len() > 0 && expand(g, metric, q, layer, cap, st, slots, from).nearest[0].distance
            <= st.nearest[0].distance,
    decreases slots.len() - from,
{
    if from >= slots.len() || slots[from] == NIL {
    } else {
        let st1 = visit(g, metric, q, layer, cap, st, slots[from]);
        lemma_visit_ok(g, metric, q, layer, cap, st, slots[from]);
        lemma_expand_ok(g, metric, q, layer, cap, st1, slots, from + 1);
    }
}

/// Looking at the neighbours of a node never unmeets a point, and leaves the frontier
/// untouched unless it meets a point.
pub proof fn lemma_expand_measure<Met: Metric<T>, T>(
    g: GraphView<T>,
    metric: Met,
    q: T,
    layer: nat,
    cap: nat,
    st: SearcherView,
    slots: Seq<usize>,
    from: int,
)
    requires
        g.wf(),
        layer <= g.top(),
        0 <= from,
        forall|i: int| 0 <= i < slots.len() && #[trigger] slots[i] != NIL ==> slots[i] < g.size(layer),
        in_layer(g, layer, st.candidates),
    ensures
        count_unseen(g.points.len(), expand(g, metric, q, layer, cap, st, slots, from).seen)
            <= count_unseen(g.points.len(), st.seen),
        count_unseen(g.points.len(), expand(g, metric, q, layer, cap, st, slots, from).seen)
            == count_unseen(g.points.len(), st.seen) ==> expand(
            g,
            metric,
            q,
            layer,
            cap,
            st,
            slots,
            from,
        ).candidates == st.candidates,
        in_layer(g, layer, expand(g, metric, q, layer, cap, st, slots, from).candidates),
    decreases slots.len() - from,
{
    if from >= slots.len() || slots[from] == NIL {
    } else {
        let v = slots[from];
        let p = g.point_of(layer, v as int);
        let st1 = visit(g, metric, q, layer, cap, st, v);
        lemma_node_facts(g, layer, v as int);
        lemma_count_unseen_insert(g.points.len(), st.seen, p);
        if !st.seen.contains(p) {
            let n = Neighbor { index: v, distance: metric.dist(&q, &g.points[p as int]) };
            if is_kept(st.nearest, cap, n) {
                let pos = crate::metric::rank_gt(st.candidates, n.distance) as int;
                crate::metric::lemma_rank_gt(st.candidates, n.distance);
                assert forall|i: int| 0 <= i < st1.candidates.len() implies (
                #[trigger] st1.candidates[i]).index < g.size(layer) by {
                    if i < pos {
                        assert(st1.candidates[i] == st.candidates[i]);
                    } else if i > pos {
                        assert(st1.candidates[i] == st.candidates[i - 1]);
                    }
                }
            }
        }
        lemma_expand_measure(g, metric, q, layer, cap, st1, slots, from + 1);
    }
}

/// The search state with the nearest node taken off the frontier.
pub open spec fn popped(st: SearcherView) -> SearcherView {
    SearcherView { candidates: st.candidates.drop_last(), ..st }
}

/// Whether the search stops at a node taken off the frontier: the list of the best is full
/// and the node is farther than the worst node of the list.
pub open spec fn stops(st: SearcherView, cap: nat, c: Neighbor) -> bool {
    st.nearest.len() >= cap && st.nearest.len() > 0 && c.distance > st.nearest.last().distance
}

/// The search state at the end of the search of one layer: as long as the frontier holds a
/// node, the nearest one is taken off; the search ends if that node is farther than the
/// worst of a full list of the best, and looks at its neighbours otherwise.
pub open spec fn search<Met: Metric<T>, T>(
    g: GraphView<T>,
    metric: Met,
    q: T,
    layer: nat,
    cap: nat,
    st: SearcherView,
) -> SearcherView
    decreases count_unseen(g.points.len(), st.seen), st.candidates.len(),
    when g.wf() && layer <= g.top() && in_layer(g, layer, st.candidates)
{
    if st.candidates.len() == 0 {
        st
    } else {
        let c = st.candidates.last();
        if stops(st, cap, c) {
            popped(st)
        } else {
            proof {
                lemma_node_facts(g, layer, c.index as int);
                lemma_expand_measure(
                    g,
                    metric,
                    q,
                    layer,
                    cap,
                    popped(st),
                    g.slots(layer, c.index as int),
                    0,
                );
            }
            search(
                g,
                metric,
                q,
                layer,
                cap,
                expand(g, metric, q, layer, cap, popped(st), g.slots(layer, c.index as int), 0),
            )
        }
    }
}

} // verus!

verus! {

/// The search state at the start of a descent: the first node of the highest layer, with
/// its distance from the query, is the only node in the frontier and in the list of the
/// best, and its point is the only one met.
pub open spec fn initial<Met: Metric<T>, T>(g: GraphView<T>, metric: Met, q: T) -> SearcherView {
    let e = Neighbor { index: 0, distance: metric.dist(&q, &g.points[g.entry_point() as int]) };
    SearcherView {
        candidates: seq![e],
        nearest: seq![e],
        seen: Set::<usize>::empty().insert(g.entry_point()),
    }
}

/// The search state at the start of the search one layer below `layer`: the best node found
/// in `layer`, at its place in the layer below, is the only node in the frontier and in the
/// list of the best; the points met stay met.
pub open spec fn lowered<T>(g: GraphView<T>, layer: nat, st: SearcherView) -> SearcherView {
    let e = Neighbor {
        index: g.below(layer, st.nearest[0].index as int),
        distance: st.nearest[0].distance,
    };
    SearcherView { candidates: seq![e], nearest: seq![e], seen: st.seen }
}

/// The width of the list of the best in a layer, in a descent that searches the layers up
/// to `level` with width `width` and the layers above with width 1.
pub open spec fn beam(level: nat, width: nat, layer: nat) -> nat {
    if layer <= level {
        width
    } else {
        1
    }
}

/// The search state after a descent from the highest layer has searched `layer`: the
/// highest layer is searched from the entry point, every other layer from the best node of
/// the layer above.
pub open spec fn searched<Met: Metric<T>, T>(
    g: GraphView<T>,
    metric: Met,
    q: T,
    level: nat,
    width: nat,
    layer: nat,
) -> SearcherView
    decreases g.top() - layer,
{
    let start = if layer >= g.top() {
        initial(g, metric, q)
    } else {
        lowered(g, layer + 1, searched(g, metric, q, level, width, layer + 1))
    };
    search(g, metric, q, layer, beam(level, width, layer), start)
}

/// The state at the start of a descent fits the highest layer.
pub proof fn lemma_initial_ok<Met: Metric<T>, T>(g: GraphView<T>, metric: Met, q: T)
    requires
        g.wf(),
        g.points.len() > 0,
    ensures
        state_ok(g, metric, q, g.top(), initial(g, metric, q)),
{
    if g.top() > 0 {
        assert(g.layer_wf(g.top() - 1));
    }
    lemma_node_facts(g, g.top(), 0);
    let st = initial(g, metric, q);
    assert(entry_ok(g, metric, q, g.top(), st.nearest[0], st.seen));
}

/// The state that a search is lowered to fits the layer below.
pub proof fn lemma_lowered_ok<Met: Metric<T>, T>(
    g: GraphView<T>,
    metric: Met,
    q: T,
    layer: nat,
    st: SearcherView,
)
    requires
        g.wf(),
        1 <= layer <= g.top(),
        state_ok(g, metric, q, layer, st),
        st.nearest.len() > 0,
    ensures
        state_ok(g, metric, q, (layer - 1) as nat, lowered(g, layer, st)),
{
    assert(entry_ok(g, metric, q, layer, st.nearest[0], st.seen));
    lemma_node_facts(g, layer, st.nearest[0].index as int);
    let r = lowered(g, layer, st);
    assert(entry_ok(g, metric, q, (layer - 1) as nat, r.nearest[0], r.seen));
}

} // verus!

verus! {

/// Two nodes of one layer stand for two points.
pub proof fn lemma_point_injective<T>(g: GraphView<T>, layer: nat, a: int, b: int)
    requires
        g.wf(),
        layer <= g.top(),
        0 <= a < g.size(layer),
        0 <= b < g.size(layer),
        a != b,
    ensures
        g.point_of(layer, a) != g.point_of(layer, b),
{
    if layer > 0 {
        assert(g.layer_wf(layer - 1));
        let nodes = g.layers[layer - 1];
        if a < b {
            assert(nodes[a].zero_node < nodes[b].zero_node);
        } else {
            assert(nodes[b].zero_node < nodes[a].zero_node);
        }
    }
}

/// No adjacency list of the layer names a node that stands for the point.
pub open spec fn never_named<T>(g: GraphView<T>, layer: nat, p: usize) -> bool {
    forall|u: int, k: int|
        0 <= u < g.size(layer) && 0 <= k < g.slots(layer, u).len() && (#[trigger] g.slots(
            layer,
            u,
        )[k]) != NIL ==> g.point_of(layer, g.slots(layer, u)[k] as int) != p
}

/// Looking at the neighbours in a list that names no node of a point never meets that
/// point.
pub proof fn lemma_expand_avoids<Met: Metric<T>, T>(
    g: GraphView<T>,
    metric: Met,
    q: T,
    layer: nat,
    cap: nat,
    st: SearcherView,
    slots: Seq<usize>,
    from: int,
    p: usize,
)
    requires
        0 <= from,
        forall|i: int|
            0 <= i < slots.len() && #[trigger] slots[i] != NIL ==> g.point_of(layer, slots[i] as int)
                != p,
        !st.seen.contains(p),
    ensures
        !expand(g, metric, q, layer, cap, st, slots, from).seen.contains(p),
    decreases slots.len() - from,
{
    if from >= slots.len() || slots[from] == NIL {
    } else {
        let v = slots[from];
        assert(g.point_of(layer, slots[from] as int) != p);
        lemma_expand_avoids(
            g,
            metric,
            q,
            layer,
            cap,
            visit(g, metric, q, layer, cap, st, v),
            slots,
            from + 1,
            p,
        );
    }
}

/// The search of a layer never meets a point of which no adjacency list of the layer names
/// a node.
pub proof fn lemma_search_avoids<Met: Metric<T>, T>(
    g: GraphView<T>,
    metric: Met,
    q: T,
    layer: nat,
    cap: nat,
    st: SearcherView,
    p: usize,
)
    requires
        g.wf(),
        layer <= g.top(),
        in_layer(g, layer, st.candidates),
        never_named(g, layer, p),
        !st.seen.contains(p),
    ensures
        !search(g, metric, q, layer, cap, st).seen.contains(p),
    decreases count_unseen(g.points.len(), st.seen), st.candidates.len(),
{
    if st.candidates.len() == 0 {
    } else {
        let c = st.candidates.last();
        if stops(st, cap, c) {
        } else {
            let slots = g.slots(layer, c.index as int);
            lemma_node_facts(g, layer, c.index as int);
            lemma_expand_measure(g, metric, q, layer, cap, popped(st), slots, 0);
            assert forall|i: int| 0 <= i < slots.len() && #[trigger] slots[i] != NIL implies g.point_of(
                layer,
                slots[i] as int,
            ) != p by {
                assert(g.slots(layer, c.index as int)[i] != NIL);
            }
            lemma_expand_avoids(g, metric, q, layer, cap, popped(st), slots, 0, p);
            lemma_search_avoids(
                g,
                metric,
                q,
                layer,
                cap,
                expand(g, metric, q, layer, cap, popped(st), slots, 0),
                p,
            );
        }
    }
}

} // verus!
