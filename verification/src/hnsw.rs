//! The index: insertion and search on a graph that is kept in order.
//!
//! A search starts at the first node of the highest layer. In every layer it keeps a
//! frontier of nodes to look at, nearest first, and a list of the best nodes found, which
//! has room for one node in the layers above the zero layer and for `ef` nodes in the zero
//! layer. It takes the nearest node off the frontier, stops if that node is farther than the
//! worst node of a full list, and looks at the neighbours of the node otherwise: a
//! neighbour whose point was not met before is offered to the list and, if the list takes
//! it, put on the frontier. The search of the next layer down starts at the best node
//! found. A point that was met in one layer is not looked at again in the layers below.
//!
//! An insertion gives the new point a node in every layer up to its level, searches these
//! layers as a search for the point would, with lists of the width set for insertions, and
//! links the node of each layer to the nearest nodes found there.
use vstd::prelude::*;
use crate::graph::{
    beam, count_unseen, entry_ok, expand, in_layer, initial, lemma_expand_measure, lemma_expand_ok,
    lemma_initial_ok, lemma_lowered_ok, lemma_node_facts, lemma_search_avoids, lemma_visit_ok,
    lowered, popped, search, searched, slots_wf, state_ok, stops, visit, GraphView, NodeView,
};
use crate::insertion::{
    connected, grown, inserted, lemma_appended, lemma_insert_levels, lemma_never_named,
    lemma_raised_once,
};
use crate::laws::{answers, lemma_result, lemma_single_point};
use crate::level::{default_prng, level_of_sample, next_sample, sample_level};
use crate::link::{
    back_edge, back_edges, chosen, chosen_len, lemma_back_edge, lemma_chosen_wf, lemma_same_nodes,
    lemma_same_nodes_trans, lemma_same_refl, lemma_with_slots, lemma_with_slots_frame,
    lemma_with_slots_same, lemma_with_slots_twice, linked, slot_dist, worst_slot,
};
use crate::metric::{ascending, distinct_indices, Metric, Neighbor};
use crate::nodes::{empty_slots, lemma_filled_len_is, node_view, NeighborNodes, Node, NIL};
use crate::parts::{graph_of, layer_in_order, lemma_layer_in_order, zero_in_order};
use crate::searcher::Searcher;
use crate::Params;

verus! {

/// An approximate nearest-neighbour index: a hierarchical navigable small world graph over
/// the points inserted so far. `M` is the number of neighbours that a node keeps in a layer
/// above the zero layer, `M0` the number it keeps in the zero layer.
#[derive(Clone)]
pub struct Hnsw<Met, T, R, const M: usize, const M0: usize> {
    /// The metric of the space.
    metric: Met,
    /// The zero layer, by point id.
    zero: Vec<NeighborNodes<M0>>,
    /// The points, by id.
    features: Vec<T>,
    /// The layers above the zero layer, bottom up.
    layers: Vec<Vec<Node<M>>>,
    /// The source of the samples from which the levels of new points are drawn.
    prng: R,
    /// The parameters of the index.
    params: Params,
}

impl<Met, T, R, const M: usize, const M0: usize> View for Hnsw<Met, T, R, M, M0> {
    type V = GraphView<T>;

    closed spec fn view(&self) -> GraphView<T> {
        graph_of(self.features@, self.zero@, self.layers@)
    }
}

impl<Met, T, R, const M: usize, const M0: usize> Hnsw<Met, T, R, M, M0> {
    /// The metric of the index.
    pub closed spec fn metric(&self) -> Met {
        self.metric
    }

    /// The parameters of the index.
    pub closed spec fn params(&self) -> Params {
        self.params
    }

    /// The source of samples of the index.
    pub closed spec fn prng(&self) -> R {
        self.prng
    }

    /// The graph of the index is in order.
    pub open spec fn wf(&self) -> bool {
        self@.wf() && self@.m == M && self@.m0 == M0
    }

    /// Creates an empty index with the given source of samples.
    pub fn new_prng(metric: Met, prng: R) -> (index: Self)
        ensures
            index.wf(),
            index@.points.len() == 0,
            index@.top() == 0,
            index.metric() == metric,
            index.prng() == prng,
            index.params().ef() == 400,
    {
        Hnsw {
            metric,
            zero: Vec::new(),
            features: Vec::new(),
            layers: Vec::new(),
            prng,
            params: Params::new(),
        }
    }

    /// Creates an empty index with the given parameters and source of samples.
    pub fn new_params_and_prng(metric: Met, params: Params, prng: R) -> (index: Self)
        ensures
            index.wf(),
            index@.points.len() == 0,
            index@.top() == 0,
            index.metric() == metric,
            index.prng() == prng,
            index.params() == params,
    {
        Hnsw { metric, zero: Vec::new(), features: Vec::new(), layers: Vec::new(), prng, params }
    }

    /// Takes the index apart into its metric, its source of samples, its parameters, its
    /// points, its zero layer and the layers above it.
    pub fn into_parts(self) -> (parts: (
        Met,
        R,
        Params,
        Vec<T>,
        Vec<NeighborNodes<M0>>,
        Vec<Vec<Node<M>>>,
    ))
        ensures
            parts.0 == self.metric(),
            parts.1 == self.prng(),
            parts.2 == self.params(),
            graph_of(parts.3@, parts.4@, parts.5@) == self@,
    {
        (self.metric, self.prng, self.params, self.features, self.zero, self.layers)
    }

    /// Puts an index together from its parts, if they make up a graph that is in order.
    pub fn from_parts(
        metric: Met,
        prng: R,
        params: Params,
        features: Vec<T>,
        zero: Vec<NeighborNodes<M0>>,
        layers: Vec<Vec<Node<M>>>,
    ) -> (index: Option<Self>)
        ensures
            index is Some <==> graph_of(features@, zero@, layers@).wf(),
            index matches Some(h) ==> h.wf() && h@ == graph_of(features@, zero@, layers@)
                && h.metric() == metric && h.prng() == prng && h.params() == params,
    {
        let ghost g = graph_of(features@, zero@, layers@);
        let points = features.len();
        if zero.len() != points {
            return None;
        }
        if !zero_in_order(&zero) {
            proof {
                let idx = choose|idx: int|
                    0 <= idx < zero@.len() && !slots_wf(
                        (#[trigger] zero@[idx]).neighbors@,
                        idx,
                        zero@.len(),
                    );
                assert(g.zero[idx] == zero@[idx].neighbors@);
            }
            return None;
        }
        proof {
            assert forall|idx: int| 0 <= idx < g.zero.len() implies (#[trigger] g.zero[idx]).len()
                == g.m0 && slots_wf(g.zero[idx], idx, g.zero.len()) by {
                assert(g.zero[idx] == zero@[idx].neighbors@);
            }
        }
        let count = layers.len();
        let mut l: usize = 0;
        while l < count
            invariant
                0 <= l <= count,
                count == layers@.len(),
                points == features@.len(),
                zero@.len() == points,
                g == graph_of(features@, zero@, layers@),
                forall|j: int| 0 <= j < l ==> #[trigger] g.layer_wf(j),
            decreases count - l,
        {
            let ok = if l == 0 {
                layer_in_order(&layers[l], points, None)
            } else {
                layer_in_order(&layers[l], points, Some(&layers[l - 1]))
            };
            let size = layers[l].len();
            proof {
                lemma_layer_in_order(features@, zero@, layers@, l as int);
            }
            if !ok {
                return None;
            }
            l += 1;
        }
        Some(Hnsw { metric, zero, features, layers, prng, params })
    }

    /// The point with the given id.
    pub fn feature(&self, item: usize) -> (point: &T)
        requires
            item < self@.points.len(),
        ensures
            *point == self@.points[item as int],
    {
        &self.features[item]
    }

    /// The id of the point that a node of a layer stands for.
    pub fn layer_item_id(&self, level: usize, item: usize) -> (id: usize)
        requires
            level <= self@.top(),
            item < self@.size(level as nat),
        ensures
            id == self@.point_of(level as nat, item as int),
    {
        if level == 0 {
            item
        } else {
            self.layers[level - 1][item].zero_node
        }
    }

    /// The point that a node of a layer stands for.
    pub fn layer_feature(&self, level: usize, item: usize) -> (point: &T)
        requires
            self.wf(),
            level <= self@.top(),
            item < self@.size(level as nat),
        ensures
            *point == self@.points[self@.point_of(level as nat, item as int) as int],
    {
        proof {
            lemma_node_facts(self@, level as nat, item as int);
        }
        &self.features[self.layer_item_id(level, item)]
    }

    /// The number of layers, the zero layer included.
    pub fn layers(&self) -> (n: usize)
        requires
            self@.top() < usize::MAX,
        ensures
            n == self@.top() + 1,
    {
        self.layers.len() + 1
    }

    /// The number of points in the index.
    pub fn len(&self) -> (n: usize)
        ensures
            n == self@.zero.len(),
            self.wf() ==> n == self@.points.len(),
    {
        self.zero.len()
    }

    /// The number of nodes in a layer; 0 for a layer that does not exist.
    pub fn layer_len(&self, level: usize) -> (n: usize)
        ensures
            level == 0 ==> n == self@.points.len(),
            0 < level <= self@.top() ==> n == self@.size(level as nat),
            level > self@.top() ==> n == 0,
    {
        if level == 0 {
            self.features.len()
        } else if level <= self.layers.len() {
            self.layers[level - 1].len()
        } else {
            0
        }
    }

    /// Whether the index holds no point.
    pub fn is_empty(&self) -> (empty: bool)
        ensures
            empty == (self@.zero.len() == 0),
    {
        self.zero.len() == 0
    }

    /// Whether a layer holds no node.
    pub fn layer_is_empty(&self, level: usize) -> (empty: bool)
        ensures
            level == 0 ==> empty == (self@.points.len() == 0),
            0 < level <= self@.top() ==> empty == (self@.size(level as nat) == 0),
            level > self@.top() ==> empty,
    {
        self.layer_len(level) == 0
    }

    /// The adjacency slots of a node, empty ones included.
    pub fn layer_slots(&self, level: usize, item: usize) -> (slots: Vec<usize>)
        requires
            self.wf(),
            level <= self@.top(),
            item < self@.size(level as nat),
        ensures
            slots@ == self@.slots(level as nat, item as int),
    {
        let degree = self.degree(level);
        let mut slots: Vec<usize> = Vec::with_capacity(degree);
        let mut k: usize = 0;
        proof {
            lemma_node_facts(self@, level as nat, item as int);
        }
        while k < degree
            invariant
                self.wf(),
                level <= self@.top(),
                item < self@.size(level as nat),
                degree == self@.degree(level as nat),
                self@.slots(level as nat, item as int).len() == degree,
                0 <= k <= degree,
                slots@ == self@.slots(level as nat, item as int).take(k as int),
            decreases degree - k,
        {
            slots.push(self.slot(level, item, k));
            assert(slots@ =~= self@.slots(level as nat, item as int).take(k + 1));
            k += 1;
        }
        assert(slots@ =~= self@.slots(level as nat, item as int));
        slots
    }

    /// The place, one layer down, of the point that a node above the zero layer stands
    /// for.
    pub fn layer_next_node(&self, level: usize, item: usize) -> (below: usize)
        requires
            1 <= level <= self@.top(),
            item < self@.size(level as nat),
        ensures
            below == self@.below(level as nat, item as int),
    {
        self.layers[level - 1][item].next_node
    }

    /// The neighbour in slot `k` of a node.
    fn slot(&self, layer: usize, idx: usize, k: usize) -> (v: usize)
        requires
            self.wf(),
            layer <= self@.top(),
            idx < self@.size(layer as nat),
            k < self@.degree(layer as nat),
        ensures
            v == self@.slots(layer as nat, idx as int)[k as int],
    {
        proof {
            lemma_node_facts(self@, layer as nat, idx as int);
        }
        if layer == 0 {
            self.zero[idx].neighbors[k]
        } else {
            self.layers[layer - 1][idx].neighbors.neighbors[k]
        }
    }

    /// The number of slots of a node of a layer.
    fn degree(&self, layer: usize) -> (d: usize)
        requires
            self.wf(),
        ensures
            d == self@.degree(layer as nat),
    {
        if layer == 0 {
            M0
        } else {
            M
        }
    }
}

impl<Met, T, R, const M: usize, const M0: usize> Hnsw<Met, T, R, M, M0> {
    /// Writes one adjacency slot of a node.
    fn set_slot(&mut self, layer: usize, idx: usize, k: usize, v: usize)
        requires
            layer <= old(self)@.top(),
            idx < old(self)@.size(layer as nat),
            k < old(self)@.slots(layer as nat, idx as int).len(),
        ensures
            final(self)@ == old(self)@.with_slots(
                layer as nat,
                idx as int,
                old(self)@.slots(layer as nat, idx as int).update(k as int, v),
            ),
            final(self).metric() == old(self).metric(),
            final(self).params() == old(self).params(),
            final(self).prng() == old(self).prng(),
    {
        let ghost g = self@;
        let ghost want = g.with_slots(
            layer as nat,
            idx as int,
            g.slots(layer as nat, idx as int).update(k as int, v),
        );
        if layer == 0 {
            self.zero[idx].neighbors[k] = v;
            proof {
                assert(self@.zero =~= want.zero);
                assert(self@.layers =~= want.layers);
            }
        } else {
            self.layers[layer - 1][idx].neighbors.neighbors[k] = v;
            proof {
                assert(self@.zero =~= want.zero);
                assert forall|l: int| 0 <= l < want.layers.len() implies #[trigger] self@.layers[l]
                    == want.layers[l] by {
                    assert(self@.layers[l] =~= want.layers[l]);
                }
                assert(self@.layers =~= want.layers);
            }
        }
    }
}

impl<Met: Metric<T>, T, R, const M: usize, const M0: usize> Hnsw<Met, T, R, M, M0> {
    /// Searches one layer from the state that the searcher is in, keeping the `cap` best
    /// nodes met.
    fn search_single_layer(&self, q: &T, searcher: &mut Searcher, layer: usize, cap: usize)
        requires
            self.wf(),
            layer <= self@.top(),
            state_ok(self@, self.metric(), *q, layer as nat, old(searcher)@),
        ensures
            final(searcher)@ == search(
                self@,
                self.metric(),
                *q,
                layer as nat,
                cap as nat,
                old(searcher)@,
            ),
            state_ok(self@, self.metric(), *q, layer as nat, final(searcher)@),
            old(searcher)@.nearest.len() <= cap ==> final(searcher)@.nearest.len() <= cap,
            old(searcher)@.nearest.len() > 0 ==> final(searcher)@.nearest.len() > 0
                && final(searcher)@.nearest[0].distance <= old(searcher)@.nearest[0].distance,
            old(searcher)@.seen.subset_of(final(searcher)@.seen),
    {
        let ghost g = self@;
        let ghost met = self.metric();
        let ghost lay = layer as nat;
        let ghost start = searcher@;
        let deg = self.degree(layer);
        loop
            invariant_except_break
                search(g, met, *q, lay, cap as nat, searcher@) == search(
                    g,
                    met,
                    *q,
                    lay,
                    cap as nat,
                    start,
                ),
            invariant
                self.wf(),
                g == self@,
                met == self.metric(),
                lay == layer as nat,
                lay <= g.top(),
                deg == g.degree(lay),
                start == old(searcher)@,
                state_ok(g, met, *q, lay, searcher@),
                start.nearest.len() <= cap ==> searcher@.nearest.len() <= cap,
                start.nearest.len() > 0 ==> searcher@.nearest.len() > 0
                    && searcher@.nearest[0].distance <= start.nearest[0].distance,
                start.seen.subset_of(searcher@.seen),
            ensures
                searcher@ == search(g, met, *q, lay, cap as nat, start),
            decreases count_unseen(g.points.len(), searcher@.seen), searcher@.candidates.len(),
        {
            let ghost before = searcher@;
            proof {
                assert(in_layer(g, lay, before.candidates)) by {
                    assert forall|i: int| 0 <= i < before.candidates.len() implies (
                    #[trigger] before.candidates[i]).index < g.size(lay) by {
                        assert(entry_ok(g, met, *q, lay, before.candidates[i], before.seen));
                    }
                }
            }
            let cand = match searcher.pop_candidate() {
                None => {
                    proof {
                        assert(search(g, met, *q, lay, cap as nat, before) == before);
                    }
                    break ;
                },
                Some(c) => c,
            };
            proof {
                assert(searcher@ == popped(before));
                assert(entry_ok(g, met, *q, lay, before.candidates.last(), before.seen));
                assert(state_ok(g, met, *q, lay, searcher@)) by {
                    assert forall|i: int| 0 <= i < searcher@.candidates.len() implies entry_ok(
                        g,
                        met,
                        *q,
                        lay,
                        #[trigger] searcher@.candidates[i],
                        searcher@.seen,
                    ) by {
                        assert(searcher@.candidates[i] == before.candidates[i]);
                        assert(entry_ok(g, met, *q, lay, before.candidates[i], before.seen));
                    }
                }
            }
            let full = searcher.nearest_len();
            if full >= cap && full > 0 && cand.distance > searcher.nearest_at(full - 1).distance {
                proof {
                    assert(stops(before, cap as nat, cand));
                    assert(search(g, met, *q, lay, cap as nat, before) == popped(before));
                }
                break ;
            }
            let ghost from = searcher@;
            let ghost slots = g.slots(lay, cand.index as int);
            proof {
                lemma_node_facts(g, lay, cand.index as int);
                assert(in_layer(g, lay, from.candidates)) by {
                    assert forall|i: int| 0 <= i < from.candidates.len() implies (
                    #[trigger] from.candidates[i]).index < g.size(lay) by {
                        assert(entry_ok(g, met, *q, lay, from.candidates[i], from.seen));
                    }
                }
                lemma_expand_measure(g, met, *q, lay, cap as nat, from, slots, 0);
                lemma_expand_ok(g, met, *q, lay, cap as nat, from, slots, 0);
                assert(!stops(before, cap as nat, cand));
                assert(search(g, met, *q, lay, cap as nat, before) == search(
                    g,
                    met,
                    *q,
                    lay,
                    cap as nat,
                    expand(g, met, *q, lay, cap as nat, from, slots, 0),
                ));
            }
            let mut k: usize = 0;
            while k < deg
                invariant_except_break
                    expand(g, met, *q, lay, cap as nat, searcher@, slots, k as int) == expand(
                        g,
                        met,
                        *q,
                        lay,
                        cap as nat,
                        from,
                        slots,
                        0,
                    ),
                invariant
                    self.wf(),
                    g == self@,
                    met == self.metric(),
                    lay == layer as nat,
                    lay <= g.top(),
                    deg == g.degree(lay),
                    cand.index < g.size(lay),
                    slots == g.slots(lay, cand.index as int),
                    slots.len() == deg,
                    forall|i: int|
                        0 <= i < slots.len() && #[trigger] slots[i] != NIL ==> slots[i] < g.size(
                            lay,
                        ),
                    0 <= k <= deg,
                    state_ok(g, met, *q, lay, searcher@),
                ensures
                    searcher@ == expand(g, met, *q, lay, cap as nat, from, slots, 0),
                decreases deg - k,
            {
                let v = self.slot(layer, cand.index, k);
                if v == NIL {
                    break ;
                }
                let ghost st = searcher@;
                proof {
                    lemma_node_facts(g, lay, v as int);
                    lemma_visit_ok(g, met, *q, lay, cap as nat, st, v);
                }
                let p = self.layer_item_id(layer, v);
                if searcher.mark_seen(p) {
                    let d = self.metric.distance(q, &self.features[p]);
                    searcher.offer(Neighbor { index: v, distance: d }, cap);
                } else {
                    proof {
                        assert(st.seen.insert(p) =~= st.seen);
                    }
                }
                proof {
                    assert(searcher@ == visit(g, met, *q, lay, cap as nat, st, v));
                }
                k += 1;
            }
        }
    }

    /// Offers the node `x` to the node `target` as a neighbour.
    fn add_neighbor(&mut self, layer: usize, x: usize, target: usize)
        requires
            old(self).wf(),
            layer <= old(self)@.top(),
            x < old(self)@.size(layer as nat),
            target < old(self)@.size(layer as nat),
            target != x,
            forall|k: int|
                0 <= k < old(self)@.slots(layer as nat, target as int).len() ==> #[trigger] old(
                    self,
                )@.slots(layer as nat, target as int)[k] != x,
        ensures
            final(self)@ == back_edge(
                old(self)@,
                old(self).metric(),
                layer as nat,
                target as int,
                x,
            ),
            final(self).wf(),
            final(self).metric() == old(self).metric(),
            final(self).params() == old(self).params(),
            final(self).prng() == old(self).prng(),
    {
        let ghost g = self@;
        let ghost met = self.metric();
        let ghost lay = layer as nat;
        let ghost s = g.slots(lay, target as int);
        let deg = self.degree(layer);
        proof {
            lemma_node_facts(g, lay, target as int);
            lemma_node_facts(g, lay, x as int);
            lemma_back_edge(g, met, lay, target as int, x);
        }
        let mut free: usize = 0;
        while free < deg && self.slot(layer, target, free) != NIL
            invariant
                self.wf(),
                self@ == g,
                lay == layer as nat,
                lay <= g.top(),
                target < g.size(lay),
                deg == g.degree(lay),
                s == g.slots(lay, target as int),
                s.len() == deg,
                0 <= free <= deg,
                forall|i: int| 0 <= i < free ==> s[i] != NIL,
            decreases deg - free,
        {
            free += 1;
        }
        proof {
            lemma_filled_len_is(s, free as int);
        }
        if free < deg {
            self.set_slot(layer, target, free, x);
        } else if deg > 0 {
            let tp = self.layer_item_id(layer, target);
            let first = self.slot(layer, target, 0);
            proof {
                assert(s[0] != NIL);
                lemma_node_facts(g, lay, first as int);
            }
            let first_point = self.layer_item_id(layer, first);
            let mut worst: usize = 0;
            let mut worst_d: u64 = self.metric.distance(
                &self.features[tp],
                &self.features[first_point],
            );
            let mut k: usize = 1;
            while k < deg
                invariant
                    self.wf(),
                    self@ == g,
                    met == self.metric(),
                    lay == layer as nat,
                    lay <= g.top(),
                    target < g.size(lay),
                    deg == g.degree(lay),
                    s == g.slots(lay, target as int),
                    s.len() == deg,
                    slots_wf(s, target as int, g.size(lay)),
                    forall|i: int| 0 <= i < deg ==> s[i] != NIL,
                    tp == g.point_of(lay, target as int),
                    tp < g.points.len(),
                    1 <= k <= deg,
                    worst == worst_slot(g, met, lay, target as int, k as int),
                    worst < k,
                    worst_d == slot_dist(g, met, lay, target as int, worst as int),
                decreases deg - k,
            {
                let n = self.slot(layer, target, k);
                proof {
                    assert(s[k as int] != NIL);
                    lemma_node_facts(g, lay, n as int);
                }
                let np = self.layer_item_id(layer, n);
                let d = self.metric.distance(&self.features[tp], &self.features[np]);
                if d > worst_d {
                    worst = k;
                    worst_d = d;
                }
                k += 1;
            }
            let xp = self.layer_item_id(layer, x);
            let xd = self.metric.distance(&self.features[tp], &self.features[xp]);
            if xd < worst_d {
                self.set_slot(layer, target, worst, x);
            }
        }
    }

    /// Gives the node `x` of the new point, which nothing names yet, its neighbours among
    /// the nodes that the search found, and offers it to each of them as a neighbour.
    fn create_node(&mut self, layer: usize, x: usize, searcher: &Searcher)
        requires
            old(self).wf(),
            layer <= old(self)@.top(),
            x < old(self)@.size(layer as nat),
            old(self)@.unlinked(layer as nat, x as int),
            forall|k: int|
                0 <= k < old(self)@.slots(layer as nat, x as int).len() ==> #[trigger] old(
                    self,
                )@.slots(layer as nat, x as int)[k] == NIL,
            distinct_indices(searcher@.nearest),
            forall|i: int|
                0 <= i < searcher@.nearest.len() ==> (#[trigger] searcher@.nearest[i]).index < old(
                    self,
                )@.size(layer as nat) && searcher@.nearest[i].index != x,
        ensures
            final(self)@ == linked(
                old(self)@,
                old(self).metric(),
                layer as nat,
                x,
                searcher@.nearest,
            ),
            final(self).wf(),
            old(self)@.same_nodes(final(self)@),
            old(self)@.same_elsewhere(final(self)@, layer as nat),
            final(self).metric() == old(self).metric(),
            final(self).params() == old(self).params(),
            final(self).prng() == old(self).prng(),
    {
        let ghost g = self@;
        let ghost met = self.metric();
        let ghost lay = layer as nat;
        let ghost nearest = searcher@.nearest;
        let deg = self.degree(layer);
        let found = searcher.nearest_len();
        let n: usize = if found <= deg {
            found
        } else {
            deg
        };
        let ghost list = chosen(nearest, deg as nat);
        proof {
            lemma_node_facts(g, lay, x as int);
            lemma_with_slots_same(g, lay, x as int);
            assert(g.slots(lay, x as int) =~= chosen(nearest.take(0), deg as nat));
        }
        let mut i: usize = 0;
        while i < n
            invariant
                lay == layer as nat,
                lay <= g.top(),
                x < g.size(lay),
                g.slots(lay, x as int).len() == deg,
                nearest == searcher@.nearest,
                n <= nearest.len(),
                n <= deg,
                0 <= i <= n,
                self@ == g.with_slots(lay, x as int, chosen(nearest.take(i as int), deg as nat)),
                self.metric() == met,
                self.params() == old(self).params(),
                self.prng() == old(self).prng(),
            decreases n - i,
        {
            let ghost cur = chosen(nearest.take(i as int), deg as nat);
            let ghost next = chosen(nearest.take(i + 1), deg as nat);
            proof {
                lemma_with_slots_frame(g, lay, x as int, cur);
                lemma_same_nodes(g, self@, lay, x as int);
            }
            let v = searcher.nearest_at(i).index;
            self.set_slot(layer, x, i, v);
            proof {
                assert(cur.update(i as int, v) =~= next);
                lemma_with_slots_twice(g, lay, x as int, cur, next);
            }
            i += 1;
        }
        proof {
            assert(chosen(nearest.take(n as int), deg as nat) =~= list);
            assert(g.size(lay) <= usize::MAX) by {
                if lay > 0 {
                    assert(g.layer_wf(lay - 1));
                }
            }
            lemma_chosen_wf(nearest, deg as nat, x as int, g.size(lay));
            lemma_with_slots(g, lay, x as int, list);
        }
        let ghost g1 = self@;
        assert(g1 == g.with_slots(lay, x as int, list));
        let mut i: usize = 0;
        while i < n
            invariant
                lay == layer as nat,
                lay <= g.top(),
                x < g.size(lay),
                nearest == searcher@.nearest,
                list == chosen(nearest, deg as nat),
                distinct_indices(nearest),
                forall|j: int|
                    0 <= j < nearest.len() ==> (#[trigger] nearest[j]).index < g.size(lay)
                        && nearest[j].index != x,
                n <= nearest.len(),
                n <= deg,
                0 <= i <= n,
                self.wf(),
                self@ == back_edges(g1, met, lay, x, list, i as int),
                g.same_nodes(self@),
                g.same_elsewhere(self@, lay),
                forall|j: int, k: int|
                    i <= j < n && 0 <= k < self@.slots(lay, list[j] as int).len() ==> (
                    #[trigger] self@.slots(lay, list[j] as int)[k]) != x,
                self.metric() == met,
                self.params() == old(self).params(),
                self.prng() == old(self).prng(),
            decreases n - i,
        {
            let ghost cur = self@;
            let target = searcher.nearest_at(i).index;
            proof {
                assert(list[i as int] == target);
                lemma_same_nodes(g, cur, lay, target as int);
                assert forall|k: int| 0 <= k < cur.slots(lay, target as int).len() implies (
                #[trigger] cur.slots(lay, target as int)[k]) != x by {
                    assert(cur.slots(lay, list[i as int] as int)[k] != x);
                }
                lemma_back_edge(cur, met, lay, target as int, x);
            }
            self.add_neighbor(layer, x, target);
            proof {
                let next = self@;
                lemma_same_nodes_trans(g, cur, next);
                assert(g.same_elsewhere(next, lay)) by {
                    assert forall|l: nat, idx: int|
                        l != lay && l <= g.top() && 0 <= idx < g.size(l) implies (
                    #[trigger] next.slots(l, idx)) == g.slots(l, idx) by {
                        lemma_same_nodes(g, cur, l, idx);
                        assert(cur.slots(l, idx) == g.slots(l, idx));
                    }
                }
                assert forall|j: int, k: int|
                    i + 1 <= j < n && 0 <= k < next.slots(lay, list[j] as int).len() implies (
                #[trigger] next.slots(lay, list[j] as int)[k]) != x by {
                    assert(nearest[j].index != nearest[i as int].index);
                    assert(list[j] == nearest[j].index);
                    lemma_same_nodes(g, cur, lay, list[j] as int);
                    assert(next.slots(lay, list[j] as int) == cur.slots(lay, list[j] as int));
                    assert(cur.slots(lay, list[j] as int)[k] != x);
                }
            }
            i += 1;
        }
        proof {
            assert(n == chosen_len(nearest, deg as nat));
        }
    }

    /// Searches the zero layer from the state that the searcher is in, keeping the `cap`
    /// best nodes met.
    fn search_zero_layer(&self, q: &T, searcher: &mut Searcher, cap: usize)
        requires
            self.wf(),
            state_ok(self@, self.metric(), *q, 0, old(searcher)@),
        ensures
            final(searcher)@ == search(self@, self.metric(), *q, 0, cap as nat, old(searcher)@),
            state_ok(self@, self.metric(), *q, 0, final(searcher)@),
            old(searcher)@.nearest.len() <= cap ==> final(searcher)@.nearest.len() <= cap,
            old(searcher)@.nearest.len() > 0 ==> final(searcher)@.nearest.len() > 0
                && final(searcher)@.nearest[0].distance <= old(searcher)@.nearest[0].distance,
            old(searcher)@.seen.subset_of(final(searcher)@.seen),
    {
        self.search_single_layer(q, searcher, 0, cap);
    }

    /// The point at which every search starts.
    fn entry_feature(&self) -> (point: &T)
        requires
            self.wf(),
            self@.points.len() > 0,
        ensures
            *point == self@.points[self@.entry_point() as int],
    {
        proof {
            if self@.top() > 0 {
                assert(self@.layer_wf(self@.top() - 1));
            }
            lemma_node_facts(self@, self@.top(), 0);
        }
        &self.features[self.layer_item_id(self.layers.len(), 0)]
    }

    /// Readies the searcher for the layer below `layer`: the search goes on from the best
    /// node found in `layer`.
    fn lower_search(&self, layer: usize, searcher: &mut Searcher)
        requires
            self.wf(),
            1 <= layer <= self@.top(),
            old(searcher)@.nearest.len() > 0,
            old(searcher)@.nearest[0].index < self@.size(layer as nat),
        ensures
            final(searcher)@ == lowered(self@, layer as nat, old(searcher)@),
    {
        let best = searcher.nearest_at(0);
        let entry = Neighbor {
            index: self.layers[layer - 1][best.index].next_node,
            distance: best.distance,
        };
        searcher.restart(entry);
    }

    /// Readies the searcher for a descent from the entry point towards `q`.
    fn initialize_searcher(&self, q: &T, searcher: &mut Searcher)
        requires
            self.wf(),
            self@.points.len() > 0,
        ensures
            final(searcher)@ == initial(self@, self.metric(), *q),
    {
        proof {
            if self@.top() > 0 {
                assert(self@.layer_wf(self@.top() - 1));
            }
            lemma_node_facts(self@, self@.top(), 0);
        }
        let entry = self.layer_item_id(self.layers.len(), 0);
        let distance = self.metric.distance(q, self.entry_feature());
        searcher.start(Neighbor { index: 0, distance }, entry);
    }

    /// Descends from the entry point to `level`, with a list of one above the zero layer
    /// and a list of `ef` in it, and searches `level` last.
    fn descend(&self, q: &T, ef: usize, level: usize, searcher: &mut Searcher)
        requires
            self.wf(),
            self@.points.len() > 0,
            level <= self@.top(),
            ef >= 1,
        ensures
            final(searcher)@ == searched(
                self@,
                self.metric(),
                *q,
                0,
                ef as nat,
                level as nat,
            ),
            state_ok(self@, self.metric(), *q, level as nat, final(searcher)@),
            1 <= final(searcher)@.nearest.len() <= beam(0, ef as nat, level as nat),
            final(searcher)@.nearest[0].distance <= self.metric().dist(
                q,
                &self@.points[self@.entry_point() as int],
            ),
            final(searcher)@.seen.contains(self@.entry_point()),
    {
        let ghost g = self@;
        let ghost met = self.metric();
        self.initialize_searcher(q, searcher);
        proof {
            lemma_initial_ok(g, met, *q);
        }
        let mut layer: usize = self.layers.len();
        loop
            invariant_except_break
                searcher@ == if layer >= g.top() {
                    initial(g, met, *q)
                } else {
                    lowered(
                        g,
                        (layer + 1) as nat,
                        searched(g, met, *q, 0, ef as nat, (layer + 1) as nat),
                    )
                },
                searcher@.nearest.len() == 1,
            invariant
                self.wf(),
                g == self@,
                met == self.metric(),
                ef >= 1,
                level <= layer <= g.top(),
                state_ok(g, met, *q, layer as nat, searcher@),
                searcher@.nearest.len() >= 1,
                searcher@.nearest[0].distance <= met.dist(q, &g.points[g.entry_point() as int]),
                searcher@.seen.contains(g.entry_point()),
            ensures
                layer == level,
                searcher@ == searched(g, met, *q, 0, ef as nat, level as nat),
                searcher@.nearest.len() <= beam(0, ef as nat, level as nat),
            decreases layer,
        {
            let cap: usize = if layer == 0 {
                ef
            } else {
                1
            };
            if layer == 0 {
                self.search_zero_layer(q, searcher, cap);
            } else {
                self.search_single_layer(q, searcher, layer, cap);
            }
            assert(cap == beam(0, ef as nat, layer as nat));
            assert(searcher@ == searched(g, met, *q, 0, ef as nat, layer as nat));
            if layer == level {
                break ;
            }
            proof {
                assert(entry_ok(g, met, *q, layer as nat, searcher@.nearest[0], searcher@.seen));
                lemma_lowered_ok(g, met, *q, layer as nat, searcher@);
            }
            self.lower_search(layer, searcher);
            layer -= 1;
        }
    }

    /// What a search that stops at `level` finds there, nearest first: nothing in an empty
    /// index or for a layer that does not exist.
    pub open spec fn layer_result(&self, q: T, ef: nat, level: nat) -> Seq<Neighbor> {
        if self@.points.len() == 0 || level > self@.top() {
            Seq::empty()
        } else {
            searched(self@, self.metric(), q, 0, ef, level).nearest
        }
    }

    /// Searches as `nearest` does, but stops at `level` and reports the nodes found there
    /// by their place in that layer. At most one node is found in a layer above the zero
    /// layer. The filled front part of `dest` is returned; the rest of `dest` is untouched.
    pub fn search_layer<'a>(
        &self,
        q: &T,
        ef: usize,
        level: usize,
        searcher: &mut Searcher,
        dest: &'a mut [Neighbor],
    ) -> (found: &'a mut [Neighbor])
        requires
            self.wf(),
            ef >= 1,
        ensures
            found@ == self.layer_result(*q, ef as nat, level as nat).take(found@.len() as int),
            found@.len() == if old(dest)@.len() <= self.layer_result(
                *q,
                ef as nat,
                level as nat,
            ).len() {
                old(dest)@.len()
            } else {
                self.layer_result(*q, ef as nat, level as nat).len()
            },
            final(dest)@ == final(found)@ + old(dest)@.skip(found@.len() as int),
            self.layer_result(*q, ef as nat, level as nat).len() <= beam(
                0,
                ef as nat,
                level as nat,
            ),
            self@.points.len() > 0 && level <= self@.top() ==> self.layer_result(
                *q,
                ef as nat,
                level as nat,
            ).len() >= 1,
            ascending(found@),
            distinct_indices(found@),
            forall|i: int|
                0 <= i < found@.len() ==> (#[trigger] found@[i]).index < self@.size(level as nat)
                    && found@[i].distance == self.metric().dist(
                    q,
                    &self@.points[self@.point_of(level as nat, found@[i].index as int) as int],
                ),
            found@.len() > 0 ==> found@[0].distance <= self.metric().dist(
                q,
                &self@.points[self@.entry_point() as int],
            ),
            self@.points.len() > 0 && level <= self@.top() ==> final(searcher)@ == searched(
                self@,
                self.metric(),
                *q,
                0,
                ef as nat,
                level as nat,
            ),
    {
        if self.features.len() == 0 || level > self.layers.len() {
            let (found, _rest) = dest.split_at_mut(0);
            assert(found@ =~= Seq::<Neighbor>::empty());
            return found;
        }
        self.descend(q, ef, level, searcher);
        let ghost best = searcher@.nearest;
        let ghost before = dest@;
        let total = searcher.nearest_len();
        let found_len: usize = if dest.len() <= total {
            dest.len()
        } else {
            total
        };
        let mut i: usize = 0;
        while i < found_len
            invariant
                0 <= i <= found_len,
                found_len <= dest@.len(),
                found_len <= best.len(),
                best == searcher@.nearest,
                dest@.len() == before.len(),
                dest@.take(i as int) == best.take(i as int),
                dest@.skip(found_len as int) == before.skip(found_len as int),
            decreases found_len - i,
        {
            let ghost prev = dest@;
            dest[i] = searcher.nearest_at(i);
            proof {
                assert(dest@ == prev.update(i as int, best[i as int]));
                assert(dest@.take((i + 1) as int) =~= best.take((i + 1) as int)) by {
                    assert forall|j: int| 0 <= j < i + 1 implies dest@[j] == best[j] by {
                        if j < i {
                            assert(prev.take(i as int)[j] == best.take(i as int)[j]);
                        }
                    }
                }
                assert(dest@.skip(found_len as int) =~= before.skip(found_len as int)) by {
                    assert forall|j: int| 0 <= j < dest@.len() - found_len implies dest@.skip(
                        found_len as int,
                    )[j] == before.skip(found_len as int)[j] by {
                        assert(prev.skip(found_len as int)[j] == before.skip(found_len as int)[j]);
                    }
                }
            }
            i += 1;
        }
        let ghost filled = dest@;
        let (found, _rest) = dest.split_at_mut(found_len);
        proof {
            assert(found@ =~= best.take(found_len as int));
            assert(_rest@ =~= before.skip(found_len as int));
            assert forall|i: int| 0 <= i < found@.len() implies (#[trigger] found@[i]).index
                < self@.size(level as nat) && found@[i].distance == self.metric().dist(
                q,
                &self@.points[self@.point_of(level as nat, found@[i].index as int) as int],
            ) by {
                assert(found@[i] == best[i]);
                assert(entry_ok(self@, self.metric(), *q, level as nat, best[i], searcher@.seen));
            }
        }
        found
    }

    /// Searches for the neighbours of `q` that are nearest to it. `ef` is the number of
    /// candidates that the search keeps in the zero layer; a greater `ef` gives better
    /// recall and a slower search. The front part of `dest` is filled with the nodes found,
    /// nearest first, and returned: as many as were found, which is at most `ef`, or all of
    /// `dest` where it is shorter. An empty index gives nothing.
    pub fn nearest<'a>(
        &self,
        q: &T,
        ef: usize,
        searcher: &mut Searcher,
        dest: &'a mut [Neighbor],
    ) -> (found: &'a mut [Neighbor])
        requires
            self.wf(),
            ef >= 1,
        ensures
            found@ == self.layer_result(*q, ef as nat, 0).take(found@.len() as int),
            found@.len() == if old(dest)@.len() <= self.layer_result(*q, ef as nat, 0).len() {
                old(dest)@.len()
            } else {
                self.layer_result(*q, ef as nat, 0).len()
            },
            final(dest)@ == final(found)@ + old(dest)@.skip(found@.len() as int),
            self.layer_result(*q, ef as nat, 0).len() <= ef,
            self@.points.len() == 0 ==> found@.len() == 0,
            self@.points.len() > 0 ==> self.layer_result(*q, ef as nat, 0).len() >= 1,
            ascending(found@),
            distinct_indices(found@),
            forall|i: int|
                0 <= i < found@.len() ==> (#[trigger] found@[i]).index < self@.points.len()
                    && found@[i].distance == self.metric().dist(
                    q,
                    &self@.points[found@[i].index as int],
                ),
            answers(self@, self.metric(), *q, ef as nat, old(dest)@.len(), found@),
            found@.len() <= self@.points.len(),
            self@.points.len() == 1 && old(dest)@.len() >= 1 ==> found@ == seq![
                Neighbor { index: 0, distance: self.metric().dist(q, &self@.points[0]) },
            ],
            forall|p: usize| #[trigger]
                final(searcher)@.seen.contains(p) && found@.len() > 0 && self@.points.len() > 0
                    ==> found@[0].distance <= self.metric().dist(q, &self@.points[p as int]),
            self@.points.len() > 0 ==> final(searcher)@.seen.contains(self@.entry_point()),
            self@.points.len() > 0 ==> final(searcher)@ == searched(
                self@,
                self.metric(),
                *q,
                0,
                ef as nat,
                0,
            ),
    {
        proof {
            if self@.points.len() > 0 {
                lemma_result(self@, self.metric(), *q, ef as nat);
                if self@.points.len() == 1 {
                    lemma_single_point(self@, self.metric(), *q, ef as nat);
                }
            }
        }
        let found = self.search_layer(q, ef, 0, searcher, dest);
        proof {
            if self@.points.len() == 1 && old(dest)@.len() >= 1 {
                assert(found@ =~= seq![
                    Neighbor { index: 0, distance: self.metric().dist(q, &self@.points[0]) },
                ]);
            }
        }
        found
    }

    /// Connects the last point, which has its nodes already, from the layer `from` down.
    fn connect(&mut self, level: usize, from: usize, searcher: &mut Searcher)
        requires
            old(self).wf(),
            old(self)@.points.len() >= 1,
            from <= old(self)@.top(),
            state_ok(
                old(self)@,
                old(self).metric(),
                old(self)@.points.last(),
                from as nat,
                old(searcher)@,
            ),
            old(searcher)@.nearest.len() >= 1,
            !old(searcher)@.seen.contains((old(self)@.points.len() - 1) as usize),
            forall|l: nat| l <= from && l <= level ==> #[trigger] old(self)@.fresh_in(l),
            forall|l: nat| l <= from && l > level ==> #[trigger] old(self)@.absent_in(l),
        ensures
            final(self)@ == connected(
                old(self)@,
                old(self).metric(),
                level as nat,
                old(self).params().ef() as nat,
                from as nat,
                old(searcher)@,
            ),
            final(self).wf(),
            old(self)@.same_nodes(final(self)@),
            final(self).metric() == old(self).metric(),
            final(self).params() == old(self).params(),
            final(self).prng() == old(self).prng(),
    {
        let ghost r = self@;
        let ghost met = self.metric();
        let ghost lvl = level as nat;
        let ghost st0 = searcher@;
        let ghost qq = r.points.last();
        let id = self.features.len() - 1;
        let width = self.params.get_ef_construction();
        proof {
            lemma_same_refl(r, 0);
        }
        let mut layer: usize = from;
        loop
            invariant_except_break
                connected(self@, met, lvl, width as nat, layer as nat, searcher@) == connected(
                    r,
                    met,
                    lvl,
                    width as nat,
                    from as nat,
                    st0,
                ),
                forall|l: nat, idx: int|
                    l <= layer && 0 <= idx < r.size(l) ==> #[trigger] self@.slots(l, idx) == r.slots(
                        l,
                        idx,
                    ),
            invariant
                self.wf(),
                r.wf(),
                r.same_nodes(self@),
                layer <= from,
                from <= r.top(),
                lvl == level as nat,
                id == r.points.len() - 1,
                r.points.last() == qq,
                forall|l: nat| l <= from && l <= lvl ==> #[trigger] r.fresh_in(l),
                forall|l: nat| l <= from && l > lvl ==> #[trigger] r.absent_in(l),
                state_ok(self@, met, qq, layer as nat, searcher@),
                searcher@.nearest.len() >= 1,
                !searcher@.seen.contains(id),
                self.metric() == met,
                self.params() == old(self).params(),
                self.prng() == old(self).prng(),
                width == self.params().ef(),
            ensures
                self@ == connected(r, met, lvl, width as nat, from as nat, st0),
            decreases layer,
        {
            let cap: usize = if layer <= level {
                width
            } else {
                1
            };
            let ghost cur = self@;
            let ghost st = searcher@;
            let ghost lay = layer as nat;
            proof {
                lemma_same_nodes(r, cur, lay, r.size(lay) - 1);
                assert(r.fresh_in(lay) || r.absent_in(lay));
                if lay <= lvl {
                    assert(cur.fresh_in(lay)) by {
                        let x = cur.size(lay) - 1;
                        assert(cur.slots(lay, x) == r.slots(lay, x));
                        assert forall|u: int, k: int|
                            0 <= u < cur.size(lay) && 0 <= k < cur.slots(lay, u).len() implies (
                        #[trigger] cur.slots(lay, u)[k]) != x by {
                            assert(cur.slots(lay, u) == r.slots(lay, u));
                            assert(r.slots(lay, u)[k] != x);
                        }
                    }
                } else {
                    assert(cur.absent_in(lay)) by {
                        assert forall|idx: int| 0 <= idx < cur.size(lay) implies (
                        #[trigger] cur.point_of(lay, idx)) < cur.points.len() - 1 by {
                            lemma_same_nodes(r, cur, lay, idx);
                            assert(r.point_of(lay, idx) < r.points.len() - 1);
                        }
                    }
                }
                lemma_never_named(cur, lay);
                assert(in_layer(cur, lay, st.candidates)) by {
                    assert forall|i: int| 0 <= i < st.candidates.len() implies (
                    #[trigger] st.candidates[i]).index < cur.size(lay) by {
                        assert(entry_ok(cur, met, qq, lay, st.candidates[i], st.seen));
                    }
                }
                lemma_search_avoids(cur, met, qq, lay, cap as nat, st, id);
            }
            self.search_single_layer(&self.features[id], searcher, layer, cap);
            let ghost found = searcher@;
            if layer <= level {
                let x = self.layer_len(layer) - 1;
                proof {
                    assert(cur.point_of(lay, x as int) == id);
                    assert forall|i: int| 0 <= i < found.nearest.len() implies (
                    #[trigger] found.nearest[i]).index < cur.size(lay) && found.nearest[i].index
                        != x by {
                        assert(entry_ok(cur, met, qq, lay, found.nearest[i], found.seen));
                    }
                    assert forall|k: int| 0 <= k < cur.slots(lay, x as int).len() implies (
                    #[trigger] cur.slots(lay, x as int)[k]) == NIL by {}
                }
                self.create_node(layer, x, searcher);
                proof {
                    let next = self@;
                    lemma_same_nodes_trans(r, cur, next);
                    assert forall|l: nat, idx: int| l < lay && 0 <= idx < r.size(l) implies (
                    #[trigger] next.slots(l, idx)) == r.slots(l, idx) by {
                        lemma_same_nodes(r, cur, l, idx);
                        assert(cur.slots(l, idx) == r.slots(l, idx));
                    }
                }
            }
            let ghost next = self@;
            proof {
                assert(state_ok(next, met, qq, lay, found)) by {
                    lemma_same_nodes(cur, next, lay, 0);
                    assert forall|i: int| 0 <= i < found.nearest.len() implies entry_ok(
                        next,
                        met,
                        qq,
                        lay,
                        #[trigger] found.nearest[i],
                        found.seen,
                    ) by {
                        assert(entry_ok(cur, met, qq, lay, found.nearest[i], found.seen));
                        lemma_same_nodes(cur, next, lay, found.nearest[i].index as int);
                    }
                    assert forall|i: int| 0 <= i < found.candidates.len() implies entry_ok(
                        next,
                        met,
                        qq,
                        lay,
                        #[trigger] found.candidates[i],
                        found.seen,
                    ) by {
                        assert(entry_ok(cur, met, qq, lay, found.candidates[i], found.seen));
                        lemma_same_nodes(cur, next, lay, found.candidates[i].index as int);
                    }
                }
            }
            if layer == 0 {
                break ;
            }
            proof {
                assert(entry_ok(next, met, qq, lay, found.nearest[0], found.seen));
                lemma_lowered_ok(next, met, qq, lay, found);
            }
            self.lower_search(layer, searcher);
            layer -= 1;
        }
    }

    /// Gives a further point a node without neighbours in the zero layer and in every
    /// layer that exists, up to layer `level`.
    fn append_point(&mut self, q: T, level: usize)
        requires
            old(self).wf(),
        ensures
            final(self)@ == old(self)@.appended(q, level as nat),
            final(self).wf(),
            final(self)@.top() == old(self)@.top(),
            forall|layer: nat|
                layer <= old(self)@.top() && layer <= level ==> #[trigger] final(self)@.fresh_in(
                    layer,
                ),
            forall|layer: nat|
                layer <= old(self)@.top() && layer > level ==> #[trigger] final(self)@.absent_in(
                    layer,
                ),
            final(self).metric() == old(self).metric(),
            final(self).params() == old(self).params(),
            final(self).prng() == old(self).prng(),
    {
        let ghost g = self@;
        let ghost qq = q;
        let ghost lvl = level as nat;
        let id = self.zero.len();
        let old_top = self.layers.len();
        self.zero.push(NeighborNodes::new());
        self.features.push(q);
        let points = self.features.len();
        let linked_top: usize = if level <= old_top {
            level
        } else {
            old_top
        };
        proof {
            let h = self@;
            let want = g.appended(qq, 0);
            assert(h.zero =~= want.zero);
            assert(h.layers =~= want.layers);
        }
        let mut l: usize = 0;
        while l < linked_top
            invariant
                g.wf(),
                0 <= l <= linked_top,
                linked_top <= old_top,
                old_top == g.top(),
                id == g.points.len(),
                id < usize::MAX,
                self@ == g.appended(qq, l as nat),
                self.layers@.len() == old_top,
                self.metric() == old(self).metric(),
                self.params() == old(self).params(),
                self.prng() == old(self).prng(),
                forall|j: int| 0 <= j < l ==> (#[trigger] g.layers[j]).len() < usize::MAX,
            decreases linked_top - l,
        {
            let ghost cur = self@;
            let ghost before = self.layers@;
            proof {
                if l > 0 {
                    assert(cur.layers[l - 1].len() == self.layers@[l - 1]@.len());
                }
                assert(cur.layers[l as int].len() == self.layers@[l as int]@.len());
            }
            let below: usize = if l == 0 {
                id
            } else {
                self.layers[l - 1].len() - 1
            };
            let node = Node { zero_node: id, next_node: below, neighbors: NeighborNodes::new() };
            self.layers[l].push(node);
            let size = self.layers[l].len();
            proof {
                let h = self@;
                let want = g.appended(qq, (l + 1) as nat);
                assert(self.layers@.len() == before.len());
                assert(self.layers@[l as int]@ == before[l as int]@.push(node));
                assert forall|j: int| 0 <= j < before.len() && j != l implies self.layers@[j]
                    == before[j] by {}
                assert(g.layers[l as int].len() + 1 == size);
                assert(h.zero =~= want.zero);
                assert forall|j: int| 0 <= j < want.layers.len() implies #[trigger] h.layers[j]
                    == want.layers[j] by {
                    assert(cur.layers[j].len() == before[j]@.len());
                    if j == l {
                        assert(node_view(node) == NodeView {
                            zero_node: g.points.len() as usize,
                            next_node: g.size(l as nat) as usize,
                            slots: empty_slots(g.m),
                        });
                        assert(cur.layers[j] == g.layers[j]);
                        assert forall|i: int| 0 <= i < h.layers[j].len() implies h.layers[j][i]
                            == want.layers[j][i] by {
                            if i < before[j]@.len() {
                                assert(cur.layers[j][i] == node_view(before[j]@[i]));
                            }
                        }
                        assert(h.layers[j] =~= want.layers[j]);
                    } else {
                        assert(h.layers[j] =~= cur.layers[j]);
                    }
                }
                assert(h.layers =~= want.layers);
            }
            l += 1;
        }
        proof {
            let h = self@;
            let a = g.appended(qq, lvl);
            assert(h.layers =~= a.layers);
            lemma_appended(g, qq, lvl);
        }
    }

    /// Adds layers that hold a node of the last point alone, until layer `level` exists.
    fn raise(&mut self, level: usize)
        requires
            old(self).wf(),
            old(self)@.points.len() >= 1,
            old(self)@.top() < level ==> old(self)@.fresh_in(old(self)@.top()),
        ensures
            final(self)@ == old(self)@.raised(level as nat),
            final(self).wf(),
            old(self)@.same_base(final(self)@, old(self)@.top()),
            final(self)@.top() == if level > old(self)@.top() {
                level as nat
            } else {
                old(self)@.top()
            },
            final(self).metric() == old(self).metric(),
            final(self).params() == old(self).params(),
            final(self).prng() == old(self).prng(),
    {
        let ghost a = self@;
        let ghost lvl = level as nat;
        let id = self.features.len() - 1;
        while self.layers.len() < level
            invariant
                self.wf(),
                a.same_base(self@, a.top()),
                self@.raised(lvl) == a.raised(lvl),
                self@.top() == self.layers@.len(),
                self@.top() >= a.top(),
                self@.top() > a.top() ==> self@.top() <= lvl,
                self@.top() < lvl ==> self@.fresh_in(self@.top()),
                id == self@.points.len() - 1,
                lvl == level as nat,
                self.metric() == old(self).metric(),
                self.params() == old(self).params(),
                self.prng() == old(self).prng(),
            decreases level - self.layers.len(),
        {
            let ghost cur = self@;
            let ghost before = self.layers@;
            let top = self.layers.len();
            proof {
                assert(cur.zero.len() == self.zero@.len());
                if top > 0 {
                    assert(cur.layer_wf(top - 1));
                    assert(cur.layers[top - 1].len() == self.layers@[top - 1]@.len());
                }
            }
            let below: usize = if top == 0 {
                self.zero.len() - 1
            } else {
                self.layers[top - 1].len() - 1
            };
            let node = Node { zero_node: id, next_node: below, neighbors: NeighborNodes::new() };
            let mut summit: Vec<Node<M>> = Vec::new();
            summit.push(node);
            self.layers.push(summit);
            proof {
                let h = self@;
                let want = cur.raised_once();
                lemma_raised_once(cur);
                assert(self.layers@ == before.push(summit));
                assert(node_view(node) == cur.summit());
                assert(h.zero =~= want.zero);
                assert forall|j: int| 0 <= j < want.layers.len() implies #[trigger] h.layers[j]
                    == want.layers[j] by {
                    if j < top {
                        assert(cur.layers[j].len() == before[j]@.len());
                        assert(h.layers[j] =~= cur.layers[j]);
                    } else {
                        assert(h.layers[j] =~= seq![cur.summit()]);
                    }
                }
                assert(h.layers =~= want.layers);
                assert(h == want);
            }
        }
    }

    /// Inserts a point whose level has been drawn already, and returns its id.
    ///
    /// The point gets a node in every layer up to `level`. Where the index held points
    /// before, each of these nodes that lies in a layer that existed is linked to the nodes
    /// nearest to the point that a search from the entry point finds in that layer, and
    /// each of those nodes gets the new node as a neighbour if it has room for it or if the
    /// new node is nearer than its farthest neighbour, which then goes. A point whose level
    /// is above the highest layer becomes the entry point.
    pub fn insert_at_level(&mut self, q: T, level: usize, searcher: &mut Searcher) -> (id: usize)
        requires
            old(self).wf(),
        ensures
            final(self)@ == inserted(
                old(self)@,
                old(self).metric(),
                q,
                level as nat,
                old(self).params().ef() as nat,
            ),
            final(self).wf(),
            id == old(self)@.points.len(),
            final(self)@.points == old(self)@.points.push(q),
            old(self)@.appended(q, level as nat).raised(level as nat).same_nodes(final(self)@),
            grown(old(self)@, final(self)@, q, level as nat),
            final(self).metric() == old(self).metric(),
            final(self).params() == old(self).params(),
            final(self).prng() == old(self).prng(),
    {
        let ghost g = self@;
        let ghost met = self.metric();
        let ghost lvl = level as nat;
        let ghost qq = q;
        let id = self.zero.len();
        let old_top = self.layers.len();
        proof {
            if id == 0 && g.top() > 0 {
                assert(g.layer_wf(0));
                assert(g.node_wf(0, 0));
            }
        }
        self.append_point(q, level);
        let ghost a = self@;
        if id > 0 {
            self.initialize_searcher(&self.features[id], searcher);
        }
        let ghost st0 = searcher@;
        self.raise(level);
        let ghost r = self@;
        if id == 0 {
            proof {
                lemma_same_refl(r, 0);
                lemma_insert_levels(g, r, qq, lvl);
            }
            return id;
        }
        proof {
            lemma_initial_ok(a, met, qq);
            if a.top() > 0 {
                assert(a.layer_wf(a.top() - 1));
            }
            lemma_node_facts(a, a.top(), 0);
            assert forall|layer: nat| layer <= a.top() && layer <= lvl implies #[trigger] r.fresh_in(
                layer,
            ) by {
                assert(a.fresh_in(layer));
                if layer > 0 {
                    assert(r.layers[layer - 1] == a.layers[layer - 1]);
                }
                assert(r.size(layer) == a.size(layer));
                assert forall|u: int, k: int|
                    0 <= u < r.size(layer) && 0 <= k < r.slots(layer, u).len() implies (
                #[trigger] r.slots(layer, u)[k]) != r.size(layer) - 1 by {
                    assert(r.slots(layer, u) == a.slots(layer, u));
                    assert(a.slots(layer, u)[k] != a.size(layer) - 1);
                }
            }
            assert forall|layer: nat| layer <= a.top() && layer > lvl implies #[trigger] r.absent_in(
                layer,
            ) by {
                assert(a.absent_in(layer));
                assert(r.layers[layer - 1] == a.layers[layer - 1]);
                assert forall|idx: int| 0 <= idx < r.size(layer) implies #[trigger] r.point_of(
                    layer,
                    idx,
                ) < r.points.len() - 1 by {
                    assert(a.point_of(layer, idx) < a.points.len() - 1);
                }
            }
            assert(state_ok(r, met, qq, a.top(), st0)) by {
                if a.top() > 0 {
                    assert(r.layers[a.top() - 1] == a.layers[a.top() - 1]);
                }
                assert(entry_ok(a, met, qq, a.top(), st0.nearest[0], st0.seen));
                assert(entry_ok(r, met, qq, a.top(), st0.nearest[0], st0.seen));
            }
            assert(a.entry_point() < id) by {
                if a.top() > 0 {
                    assert(g.layer_wf(g.top() - 1));
                    assert(g.node_wf(g.top() - 1, 0));
                    assert(a.layers[a.top() - 1][0] == g.layers[g.top() - 1][0]);
                }
            }
        }
        self.connect(level, old_top, searcher);
        proof {
            lemma_insert_levels(g, self@, qq, lvl);
        }
        id
    }

    /// Inserts a point and returns its id. The level of the point is computed from the
    /// sample, which is expected to be drawn uniformly from the 64-bit numbers.
    pub fn insert_with_sample(&mut self, q: T, sample: u64, searcher: &mut Searcher) -> (id: usize)
        requires
            old(self).wf(),
        ensures
            final(self)@ == inserted(
                old(self)@,
                old(self).metric(),
                q,
                sample_level(sample, M as nat),
                old(self).params().ef() as nat,
            ),
            final(self).wf(),
            id == old(self)@.points.len(),
            grown(old(self)@, final(self)@, q, sample_level(sample, M as nat)),
            final(self).metric() == old(self).metric(),
            final(self).params() == old(self).params(),
            final(self).prng() == old(self).prng(),
    {
        let level = level_of_sample(sample, M);
        self.insert_at_level(q, level, searcher)
    }

    /// The width of the list that `knn` searches the zero layer with for `num` neighbours:
    /// 16 more than `num`, or `num` itself where that is beyond the range of `usize`.
    pub open spec fn knn_width(num: usize) -> nat {
        if num + 16 <= usize::MAX {
            (num + 16) as nat
        } else {
            num as nat
        }
    }

    /// The `num` nearest neighbours of `query` that a search with a list of `num + 16`
    /// finds, nearest first; fewer where the search finds fewer.
    pub fn knn(&self, query: &T, num: usize) -> (found: Vec<Neighbor>)
        requires
            self.wf(),
        ensures
            found@ == self.layer_result(*query, Self::knn_width(num), 0).take(found@.len() as int),
            found@.len() == if num <= self.layer_result(*query, Self::knn_width(num), 0).len() {
                num as nat
            } else {
                self.layer_result(*query, Self::knn_width(num), 0).len()
            },
    {
        let mut found: Vec<Neighbor> = Vec::new();
        if self.features.len() == 0 {
            return found;
        }
        let ef: usize = if num <= usize::MAX - 16 {
            num + 16
        } else {
            num
        };
        let mut searcher = Searcher::new();
        self.descend(query, ef, 0, &mut searcher);
        let total = searcher.nearest_len();
        let ghost best = searcher@.nearest;
        let mut i: usize = 0;
        while i < num && i < total
            invariant
                0 <= i <= num,
                i <= total,
                total == best.len(),
                best == searcher@.nearest,
                found@ == best.take(i as int),
            decreases total - i,
        {
            found.push(searcher.nearest_at(i));
            assert(found@ =~= best.take(i + 1));
            i += 1;
        }
        found
    }
}

impl<Met: Metric<T>, T, const M: usize, const M0: usize> Hnsw<Met, T, rand_pcg::Pcg64, M, M0> {
    /// Creates an empty index with the default parameters, which draws its samples from a
    /// generator seeded with zeros.
    pub fn new(metric: Met) -> (index: Self)
        ensures
            index.wf(),
            index@.points.len() == 0,
            index@.top() == 0,
            index.metric() == metric,
            index.params().ef() == 400,
    {
        Hnsw {
            metric,
            zero: Vec::new(),
            features: Vec::new(),
            layers: Vec::new(),
            prng: default_prng(),
            params: Params::new(),
        }
    }

    /// Creates an empty index with the given parameters, which draws its samples from a
    /// generator seeded with zeros.
    pub fn new_params(metric: Met, params: Params) -> (index: Self)
        ensures
            index.wf(),
            index@.points.len() == 0,
            index@.top() == 0,
            index.metric() == metric,
            index.params() == params,
    {
        Hnsw {
            metric,
            zero: Vec::new(),
            features: Vec::new(),
            layers: Vec::new(),
            prng: default_prng(),
            params,
        }
    }

    /// Creates an empty index as `new_params` does, with room for `capacity` points.
    pub fn new_with_capacity(metric: Met, params: Params, capacity: usize) -> (index: Self)
        ensures
            index.wf(),
            index@.points.len() == 0,
            index@.top() == 0,
            index.metric() == metric,
            index.params() == params,
    {
        Hnsw {
            metric,
            zero: Vec::with_capacity(capacity),
            features: Vec::with_capacity(capacity),
            layers: Vec::new(),
            prng: default_prng(),
            params,
        }
    }

    /// Inserts a point and returns its id. The level of the point is computed from the next
    /// sample of the generator; whatever the sample, the index is as `insert_with_sample`
    /// leaves it for that sample.
    pub fn insert(&mut self, q: T, searcher: &mut Searcher) -> (id: usize)
        requires
            old(self).wf(),
        ensures
            exists|sample: u64|
                final(self)@ == #[trigger] inserted(
                    old(self)@,
                    old(self).metric(),
                    q,
                    sample_level(sample, M as nat),
                    old(self).params().ef() as nat,
                ) && grown(old(self)@, final(self)@, q, sample_level(sample, M as nat)),
            final(self).wf(),
            id == old(self)@.points.len(),
            final(self)@.points == old(self)@.points.push(q),
            final(self).metric() == old(self).metric(),
            final(self).params() == old(self).params(),
    {
        let ghost g = self@;
        let ghost met = self.metric();
        let ghost width = self.params().ef() as nat;
        let ghost qq = q;
        let sample = next_sample(&mut self.prng);
        assert(self@ == g);
        let id = self.insert_with_sample(q, sample, searcher);
        assert(self@ == inserted(g, met, qq, sample_level(sample, M as nat), width) && grown(
            g,
            self@,
            qq,
            sample_level(sample, M as nat),
        ));
        id
    }
}

impl<Met: Metric<T> + Default, T, const M: usize, const M0: usize> Default for Hnsw<
    Met,
    T,
    rand_pcg::Pcg64,
    M,
    M0,
> {
    fn default() -> (index: Self)
        ensures
            index.wf(),
            index@.points.len() == 0,
            index@.top() == 0,
            index.params().ef() == 400,
    {
        Self::new(Met::default())
    }
}

} // verus!
