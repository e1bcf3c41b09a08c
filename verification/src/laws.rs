//! What holds of every search and of every index, stated over the graph of the index and
//! proved from the definitions of the search and of insertion.
use vstd::prelude::*;
use crate::graph::{
    beam, count_unseen, entry_ok, expand, in_layer, initial, lemma_expand_measure, lemma_expand_ok,
    lemma_initial_ok, lemma_lowered_ok, lemma_node_facts, lowered, popped, search, searched,
    state_ok, stops, visit, GraphView,
};
use crate::insertion::inserted;
use crate::metric::{ascending, distinct_indices, lemma_rank_le, rank_le, Metric, Neighbor};
use crate::nodes::{compacted, NIL};
use crate::searcher::{is_kept, lemma_keep_best, SearcherView};

verus! {

/// The first node of the list of the best is at least as near to the query as every point
/// met.
pub open spec fn best_first<Met: Metric<T>, T>(
    g: GraphView<T>,
    metric: Met,
    q: T,
    st: SearcherView,
) -> bool {
    forall|p: usize| #[trigger]
        st.seen.contains(p) ==> st.nearest.len() > 0 && st.nearest[0].distance <= metric.dist(
            &q,
            &g.points[p as int],
        )
}

/// Looking at a neighbour keeps the nearest point met first in the list of the best, if the
/// list may hold a node at all.
pub proof fn lemma_visit_best<Met: Metric<T>, T>(
    g: GraphView<T>,
    metric: Met,
    q: T,
    layer: nat,
    cap: nat,
    st: SearcherView,
    v: usize,
)
    requires
        cap >= 1,
        ascending(st.nearest),
        best_first(g, metric, q, st),
    ensures
        best_first(g, metric, q, visit(g, metric, q, layer, cap, st, v)),
{
    let p = g.point_of(layer, v as int);
    let r = visit(g, metric, q, layer, cap, st, v);
    if !st.seen.contains(p) {
        let n = Neighbor { index: v, distance: metric.dist(&q, &g.points[p as int]) };
        lemma_keep_best(st.nearest, cap, n);
        lemma_rank_le(st.nearest, n.distance);
        let pos = rank_le(st.nearest, n.distance) as int;
        if st.nearest.len() > 0 {
            if pos > 0 {
                assert(st.nearest[0].distance <= n.distance);
                if is_kept(st.nearest, cap, n) {
                    assert(r.nearest[0] == st.nearest[0]);
                }
            }
        }
        assert forall|p2: usize| #[trigger] r.seen.contains(p2) implies r.nearest.len() > 0
            && r.nearest[0].distance <= metric.dist(&q, &g.points[p2 as int]) by {
            if p2 != p {
                assert(st.seen.contains(p2));
            }
        }
    }
}

/// Looking at the neighbours of a node keeps the nearest point met first in the list of the
/// best.
pub proof fn lemma_expand_best<Met: Metric<T>, T>(
    g: GraphView<T>,
    metric: Met,
    q: T,
    layer: nat,
    cap: nat,
    st: SearcherView,
    slots: Seq<usize>,
    from: int,
)
    requires
        g.wf(),
        layer <= g.top(),
        0 <= from,
        cap >= 1,
        forall|i: int| 0 <= i < slots.len() && #[trigger] slots[i] != NIL ==> slots[i] < g.size(layer),
        state_ok(g, metric, q, layer, st),
        best_first(g, metric, q, st),
    ensures
        best_first(g, metric, q, expand(g, metric, q, layer, cap, st, slots, from)),
    decreases slots.len() - from,
{
    if from >= slots.len() || slots[from] == NIL {
    } else {
        let st1 = visit(g, metric, q, layer, cap, st, slots[from]);
        crate::graph::lemma_visit_ok(g, metric, q, layer, cap, st, slots[from]);
        lemma_visit_best(g, metric, q, layer, cap, st, slots[from]);
        lemma_expand_best(g, metric, q, layer, cap, st1, slots, from + 1);
    }
}

/// Every entry of a fitting state names a node of the layer.
pub proof fn lemma_in_layer<Met: Metric<T>, T>(
    g: GraphView<T>,
    metric: Met,
    q: T,
    layer: nat,
    st: SearcherView,
)
    requires
        state_ok(g, metric, q, layer, st),
    ensures
        in_layer(g, layer, st.candidates),
        in_layer(g, layer, st.nearest),
{
    assert forall|i: int| 0 <= i < st.candidates.len() implies (#[trigger] st.candidates[i]).index
        < g.size(layer) by {
        assert(entry_ok(g, metric, q, layer, st.candidates[i], st.seen));
    }
    assert forall|i: int| 0 <= i < st.nearest.len() implies (#[trigger] st.nearest[i]).index
        < g.size(layer) by {
        assert(entry_ok(g, metric, q, layer, st.nearest[i], st.seen));
    }
}

/// The search of a layer ends in a state that fits the layer: the list of the best is in
/// ascending order, names nodes of the layer with their true distances and names none
/// twice. The list is no longer than its width if it was not before, it does not become
/// empty, the points met stay met, and the nearest point met comes first in the list if it
/// did before.
pub proof fn lemma_search_ok<Met: Metric<T>, T>(
    g: GraphView<T>,
    metric: Met,
    q: T,
    layer: nat,
    cap: nat,
    st: SearcherView,
)
    requires
        g.wf(),
        layer <= g.top(),
        state_ok(g, metric, q, layer, st),
    ensures
        state_ok(g, metric, q, layer, search(g, metric, q, layer, cap, st)),
        st.nearest.len() <= cap ==> search(g, metric, q, layer, cap, st).nearest.len() <= cap,
        st.nearest.len() > 0 ==> search(g, metric, q, layer, cap, st).nearest.len() > 0,
        st.seen.subset_of(search(g, metric, q, layer, cap, st).seen),
        cap >= 1 && best_first(g, metric, q, st) ==> best_first(
            g,
            metric,
            q,
            search(g, metric, q, layer, cap, st),
        ),
    decreases count_unseen(g.points.len(), st.seen), st.candidates.len(),
{
    lemma_in_layer(g, metric, q, layer, st);
    if st.candidates.len() == 0 {
    } else {
        let c = st.candidates.last();
        let from = popped(st);
        assert(entry_ok(g, metric, q, layer, c, st.seen));
        assert(state_ok(g, metric, q, layer, from)) by {
            assert forall|i: int| 0 <= i < from.candidates.len() implies entry_ok(
                g,
                metric,
                q,
                layer,
                #[trigger] from.candidates[i],
                from.seen,
            ) by {
                assert(from.candidates[i] == st.candidates[i]);
                assert(entry_ok(g, metric, q, layer, st.candidates[i], st.seen));
            }
            assert forall|i: int, j: int| 0 <= i <= j < from.candidates.len() implies from.candidates[i].distance
                >= from.candidates[j].distance by {
                assert(from.candidates[i] == st.candidates[i]);
                assert(from.candidates[j] == st.candidates[j]);
            }
        }
        if stops(st, cap, c) {
        } else {
            let slots = g.slots(layer, c.index as int);
            lemma_node_facts(g, layer, c.index as int);
            lemma_in_layer(g, metric, q, layer, from);
            lemma_expand_measure(g, metric, q, layer, cap, from, slots, 0);
            lemma_expand_ok(g, metric, q, layer, cap, from, slots, 0);
            if cap >= 1 && best_first(g, metric, q, st) {
                lemma_expand_best(g, metric, q, layer, cap, from, slots, 0);
            }
            lemma_search_ok(
                g,
                metric,
                q,
                layer,
                cap,
                expand(g, metric, q, layer, cap, from, slots, 0),
            );
        }
    }
}

/// A descent with lists of width 1 or more leaves, in every layer, a state that fits the
/// layer, with the nearest point met first in a list of the best that is not empty and no
/// longer than its width; the entry point is among the points met.
pub proof fn lemma_searched_ok<Met: Metric<T>, T>(
    g: GraphView<T>,
    metric: Met,
    q: T,
    level: nat,
    width: nat,
    layer: nat,
)
    requires
        g.wf(),
        g.points.len() > 0,
        layer <= g.top(),
        width >= 1,
    ensures
        state_ok(g, metric, q, layer, searched(g, metric, q, level, width, layer)),
        best_first(g, metric, q, searched(g, metric, q, level, width, layer)),
        1 <= searched(g, metric, q, level, width, layer).nearest.len() <= beam(
            level,
            width,
            layer,
        ),
        searched(g, metric, q, level, width, layer).seen.contains(g.entry_point()),
    decreases g.top() - layer,
{
    let cap = beam(level, width, layer);
    if layer >= g.top() {
        let st = initial(g, metric, q);
        lemma_initial_ok(g, metric, q);
        lemma_search_ok(g, metric, q, layer, cap, st);
        assert(search(g, metric, q, layer, cap, st).seen.contains(g.entry_point())) by {
            assert(st.seen.contains(g.entry_point()));
        }
    } else {
        let above = searched(g, metric, q, level, width, layer + 1);
        lemma_searched_ok(g, metric, q, level, width, layer + 1);
        let st = lowered(g, layer + 1, above);
        lemma_lowered_ok(g, metric, q, layer + 1, above);
        assert(best_first(g, metric, q, st)) by {
            assert forall|p: usize| #[trigger] st.seen.contains(p) implies st.nearest.len() > 0
                && st.nearest[0].distance <= metric.dist(&q, &g.points[p as int]) by {
                assert(above.seen.contains(p));
            }
        }
        lemma_search_ok(g, metric, q, layer, cap, st);
        assert(search(g, metric, q, layer, cap, st).seen.contains(g.entry_point())) by {
            assert(st.seen.contains(g.entry_point()));
        }
    }
}

/// A list that names different nodes, all of them among the first `n`, has at most `n`
/// entries.
pub proof fn lemma_distinct_bounded(s: Seq<Neighbor>, n: nat)
    requires
        distinct_indices(s),
        forall|i: int| 0 <= i < s.len() ==> (#[trigger] s[i]).index < n,
    ensures
        s.len() <= n,
    decreases n,
{
    if s.len() > 0 {
        assert(s[0].index < n);
        let m = (n - 1) as nat;
        if exists|k: int| 0 <= k < s.len() && (#[trigger] s[k]).index == m {
            let k = choose|k: int| 0 <= k < s.len() && (#[trigger] s[k]).index == m;
            let t = s.remove(k);
            assert forall|i: int| 0 <= i < t.len() implies (#[trigger] t[i]).index < m by {
                if i < k {
                    assert(t[i] == s[i]);
                    assert(s[i].index != s[k].index);
                } else {
                    assert(t[i] == s[i + 1]);
                    assert(s[k].index != s[i + 1].index);
                }
            }
            assert forall|i: int, j: int| 0 <= i < j < t.len() implies t[i].index
                != t[j].index by {
                let a = if i < k {
                    i
                } else {
                    i + 1
                };
                let b = if j < k {
                    j
                } else {
                    j + 1
                };
                assert(t[i] == s[a] && t[j] == s[b]);
            }
            lemma_distinct_bounded(t, m);
        } else {
            assert forall|i: int| 0 <= i < s.len() implies (#[trigger] s[i]).index < m by {}
            lemma_distinct_bounded(s, m);
        }
    }
}

/// What a search of the zero layer with a list of `ef` finds: the nodes are listed nearest
/// first, each with its true distance and none twice; there is at least one, and there are
/// no more than `ef` and no more than the index holds points. The first is as near to the
/// query as any point that the search met, the entry point among them.
pub proof fn lemma_result<Met: Metric<T>, T>(g: GraphView<T>, metric: Met, q: T, ef: nat)
    requires
        g.wf(),
        g.points.len() > 0,
        ef >= 1,
    ensures
        ascending(searched(g, metric, q, 0, ef, 0).nearest),
        distinct_indices(searched(g, metric, q, 0, ef, 0).nearest),
        forall|i: int|
            0 <= i < searched(g, metric, q, 0, ef, 0).nearest.len() ==> (#[trigger] searched(
                g,
                metric,
                q,
                0,
                ef,
                0,
            ).nearest[i]).index < g.points.len() && searched(
                g,
                metric,
                q,
                0,
                ef,
                0,
            ).nearest[i].distance == metric.dist(
                &q,
                &g.points[searched(g, metric, q, 0, ef, 0).nearest[i].index as int],
            ),
        1 <= searched(g, metric, q, 0, ef, 0).nearest.len() <= ef,
        searched(g, metric, q, 0, ef, 0).nearest.len() <= g.points.len(),
        forall|p: usize| #[trigger]
            searched(g, metric, q, 0, ef, 0).seen.contains(p) ==> searched(
                g,
                metric,
                q,
                0,
                ef,
                0,
            ).nearest[0].distance <= metric.dist(&q, &g.points[p as int]),
        searched(g, metric, q, 0, ef, 0).seen.contains(g.entry_point()),
{
    let st = searched(g, metric, q, 0, ef, 0);
    lemma_searched_ok(g, metric, q, 0, ef, 0);
    assert forall|i: int| 0 <= i < st.nearest.len() implies (#[trigger] st.nearest[i]).index
        < g.points.len() && st.nearest[i].distance == metric.dist(
        &q,
        &g.points[st.nearest[i].index as int],
    ) by {
        assert(entry_ok(g, metric, q, 0, st.nearest[i], st.seen));
    }
    lemma_distinct_bounded(st.nearest, g.points.len());
}

/// In an index of one point, every search finds exactly that point.
pub proof fn lemma_single_point<Met: Metric<T>, T>(g: GraphView<T>, metric: Met, q: T, ef: nat)
    requires
        g.wf(),
        g.points.len() == 1,
        ef >= 1,
    ensures
        searched(g, metric, q, 0, ef, 0).nearest == seq![
            Neighbor { index: 0, distance: metric.dist(&q, &g.points[0]) },
        ],
{
    let st = searched(g, metric, q, 0, ef, 0);
    lemma_result(g, metric, q, ef);
    assert(st.nearest[0].index < 1);
    assert(st.nearest =~= seq![Neighbor { index: 0, distance: metric.dist(&q, &g.points[0]) }]);
}

/// A search for a point of the index that meets that point returns, as its first result, a
/// node at the distance of the point from itself, provided that no point is nearer to a
/// point than the point itself.
pub proof fn lemma_identity<Met: Metric<T>, T>(g: GraphView<T>, metric: Met, p: usize, ef: nat)
    requires
        g.wf(),
        p < g.points.len(),
        ef >= 1,
        forall|b: T| metric.dist(&g.points[p as int], &g.points[p as int]) <= #[trigger] metric.dist(
            &g.points[p as int],
            &b,
        ),
        searched(g, metric, g.points[p as int], 0, ef, 0).seen.contains(p),
    ensures
        searched(g, metric, g.points[p as int], 0, ef, 0).nearest[0].distance == metric.dist(
            &g.points[p as int],
            &g.points[p as int],
        ),
{
    let q = g.points[p as int];
    let st = searched(g, metric, q, 0, ef, 0);
    lemma_result(g, metric, q, ef);
    assert(st.nearest[0].distance == metric.dist(&q, &g.points[st.nearest[0].index as int]));
}

/// A search for the point at which searches start returns, as its first result, a node at
/// the distance of that point from itself, provided that no point is nearer to a point than
/// the point itself.
pub proof fn lemma_identity_of_entry<Met: Metric<T>, T>(g: GraphView<T>, metric: Met, ef: nat)
    requires
        g.wf(),
        g.points.len() > 0,
        ef >= 1,
        forall|b: T|
            metric.dist(
                &g.points[g.entry_point() as int],
                &g.points[g.entry_point() as int],
            ) <= #[trigger] metric.dist(&g.points[g.entry_point() as int], &b),
    ensures
        searched(g, metric, g.points[g.entry_point() as int], 0, ef, 0).nearest[0].distance
            == metric.dist(&g.points[g.entry_point() as int], &g.points[g.entry_point() as int]),
{
    let e = g.entry_point();
    if g.top() > 0 {
        assert(g.layer_wf(g.top() - 1));
    }
    lemma_node_facts(g, g.top(), 0);
    lemma_result(g, metric, g.points[e as int], ef);
    lemma_identity(g, metric, e, ef);
}

/// In an index that is in order, every adjacency list has its neighbours first and its
/// empty slots after them, names only nodes of its layer, names none twice and does not
/// name its own node; every node stands for a point of the index, and a node above the zero
/// layer for a point that the layer below holds too.
pub proof fn lemma_adjacency<T>(g: GraphView<T>, layer: nat, idx: int)
    requires
        g.wf(),
        layer <= g.top(),
        0 <= idx < g.size(layer),
    ensures
        g.slots(layer, idx).len() == g.degree(layer),
        compacted(g.slots(layer, idx)),
        forall|k: int|
            0 <= k < g.degree(layer) && #[trigger] g.slots(layer, idx)[k] != NIL ==> g.slots(
                layer,
                idx,
            )[k] < g.size(layer),
        forall|k: int| 0 <= k < g.degree(layer) ==> #[trigger] g.slots(layer, idx)[k] != idx,
        forall|j: int, k: int|
            0 <= j < k < g.degree(layer) && #[trigger] g.slots(layer, idx)[j]
                == #[trigger] g.slots(layer, idx)[k] ==> g.slots(layer, idx)[j] == NIL,
        g.point_of(layer, idx) < g.points.len(),
        layer > 0 ==> g.present((layer - 1) as nat, g.point_of(layer, idx)),
{
    lemma_node_facts(g, layer, idx);
    if layer > 0 {
        let below = g.below(layer, idx) as int;
        assert(0 <= below < g.size((layer - 1) as nat) && g.point_of((layer - 1) as nat, below)
            == g.point_of(layer, idx));
    }
}

/// In an index that holds a point, the highest layer is not empty: the entry point has a
/// node in it, and so has a node in every layer.
pub proof fn lemma_entry_point<T>(g: GraphView<T>)
    requires
        g.wf(),
        g.points.len() > 0,
    ensures
        g.size(g.top()) >= 1,
        g.entry_point() < g.points.len(),
        forall|layer: nat| layer <= g.top() ==> #[trigger] g.present(layer, g.entry_point()),
{
    if g.top() > 0 {
        assert(g.layer_wf(g.top() - 1));
    }
    lemma_node_facts(g, g.top(), 0);
    assert(g.present(g.top(), g.entry_point())) by {
        assert(0 <= 0 < g.size(g.top()) && g.point_of(g.top(), 0) == g.entry_point());
    }
    assert forall|layer: nat| layer <= g.top() implies #[trigger] g.present(
        layer,
        g.entry_point(),
    ) by {
        lemma_present_below(g, g.top(), layer, g.entry_point());
    }
}

/// A point that has a node in a layer has a node in every layer below it.
pub proof fn lemma_present_below<T>(g: GraphView<T>, layer: nat, lower: nat, p: usize)
    requires
        g.wf(),
        lower <= layer <= g.top(),
        g.present(layer, p),
    ensures
        g.present(lower, p),
    decreases layer - lower,
{
    if lower < layer {
        let idx = choose|idx: int| 0 <= idx < g.size(layer) && g.point_of(layer, idx) == p;
        lemma_node_facts(g, layer, idx);
        let below = g.below(layer, idx) as int;
        assert(0 <= below < g.size((layer - 1) as nat) && g.point_of((layer - 1) as nat, below)
            == p);
        lemma_present_below(g, (layer - 1) as nat, lower, p);
    }
}

/// No point has two nodes in one layer, and every point has a node in the zero layer.
pub proof fn lemma_one_node<T>(g: GraphView<T>, layer: nat, a: int, b: int)
    requires
        g.wf(),
        layer <= g.top(),
        0 <= a < g.size(layer),
        0 <= b < g.size(layer),
        g.point_of(layer, a) == g.point_of(layer, b),
    ensures
        a == b,
        forall|p: usize| p < g.points.len() ==> #[trigger] g.present(0, p),
{
    if a != b {
        crate::graph::lemma_point_injective(g, layer, a, b);
    }
    assert forall|p: usize| p < g.points.len() implies #[trigger] g.present(0, p) by {
        assert(0 <= p < g.size(0) && g.point_of(0, p as int) == p);
    }
}

/// `found` is what a search for `q` with a list of `ef` leaves in a buffer of `room`
/// entries: the nodes that the search of the zero layer ends with, nearest first, as far as
/// the buffer goes; nothing in an index without points.
pub open spec fn answers<Met: Metric<T>, T>(
    g: GraphView<T>,
    metric: Met,
    q: T,
    ef: nat,
    room: nat,
    found: Seq<Neighbor>,
) -> bool {
    let all = if g.points.len() == 0 {
        Seq::<Neighbor>::empty()
    } else {
        searched(g, metric, q, 0, ef, 0).nearest
    };
    &&& found.len() == if room <= all.len() {
        room
    } else {
        all.len()
    }
    &&& found == all.take(found.len() as int)
}

/// The same calls give the same results. What an insertion may leave and what a search may
/// return are each fixed by what the call is given: where two indices are left by the
/// insertion of one point at one level into one index, they are the same index, and where
/// two lists are returned by searches of it for one query with lists and buffers of one
/// size, they are the same list, entry by entry and in the same order.
pub proof fn lemma_same_calls_same_results<Met: Metric<T>, T>(
    g: GraphView<T>,
    metric: Met,
    point: T,
    level: nat,
    width: nat,
    q: T,
    ef: nat,
    room: nat,
    first: GraphView<T>,
    second: GraphView<T>,
    first_found: Seq<Neighbor>,
    second_found: Seq<Neighbor>,
)
    requires
        first == inserted(g, metric, point, level, width),
        second == inserted(g, metric, point, level, width),
        answers(first, metric, q, ef, room, first_found),
        answers(second, metric, q, ef, room, second_found),
    ensures
        first == second,
        first_found == second_found,
{
}

} // verus!
