//! The steps of a search and of an insertion in an index whose nodes lie in a store.
//!
//! Such an index cannot walk its graph by itself: every node has to be fetched. So the walk
//! is cut into steps. Whoever holds the store asks which node to look at next, fetches the
//! neighbours of that node, and hands them in; the steps here keep the frontier, the list of
//! the best nodes and the set of the nodes met, and decide where the search goes on and
//! when it ends. Nodes are named by their ids in every layer.
use vstd::prelude::*;
use crate::graph::{beam, popped, stops};
use crate::metric::{Metric, Neighbor};
use crate::searcher::{enqueue, is_kept, keep_best, Searcher, SearcherView};
use crate::storage::{by_distance, with_neighbor, NeighborNodes, UNUSED};

verus! {

/// The search state after a node that was fetched is looked at: a node met before changes
/// nothing; a new node is marked as met and offered to the list of the best, and joins the
/// frontier if the list takes it.
pub open spec fn met<Met: Metric<T>, T>(
    metric: Met,
    q: T,
    cap: nat,
    st: SearcherView,
    id: usize,
    point: T,
) -> SearcherView {
    if st.seen.contains(id) {
        st
    } else {
        let n = Neighbor { index: id, distance: metric.dist(&q, &point) };
        SearcherView {
            candidates: if is_kept(st.nearest, cap, n) {
                enqueue(st.candidates, n)
            } else {
                st.candidates
            },
            nearest: keep_best(st.nearest, cap, n),
            seen: st.seen.insert(id),
        }
    }
}

/// The search state after the first `upto` of the nodes fetched are looked at, in order.
pub open spec fn met_all<Met: Metric<T>, T>(
    metric: Met,
    q: T,
    cap: nat,
    st: SearcherView,
    fetched: Seq<(usize, T)>,
    upto: int,
) -> SearcherView
    decreases upto,
{
    if upto <= 0 {
        st
    } else {
        met(
            metric,
            q,
            cap,
            met_all(metric, q, cap, st, fetched, upto - 1),
            fetched[upto - 1].0,
            fetched[upto - 1].1,
        )
    }
}

/// The node that the search looks at next. The nearest node is taken off the frontier; the
/// search of the layer is over if there is none, or if that node is farther than the worst
/// node of a full list of the best.
pub open spec fn next_of(st: SearcherView, cap: nat) -> Option<usize> {
    if st.candidates.len() == 0 || stops(st, cap, st.candidates.last()) {
        None
    } else {
        Some(st.candidates.last().index)
    }
}

/// The search state after the nearest node is taken off the frontier, if there is one.
pub open spec fn after_next(st: SearcherView) -> SearcherView {
    if st.candidates.len() == 0 {
        st
    } else {
        popped(st)
    }
}

/// The distance that is kept with a neighbour in a store: the distance itself, and the
/// greatest distance that a slot in use can hold for every distance beyond that.
pub open spec fn cost_of(distance: u64) -> u32 {
    if distance < UNUSED {
        distance as u32
    } else {
        (UNUSED - 1) as u32
    }
}

/// The adjacency list of a new node after it is given the nodes found: the first slots
/// hold the nodes found, nearest first, with their distances, as far as there are slots and
/// nodes; the other slots stay as they were.
pub open spec fn assigned(slots: Seq<(usize, u32)>, nearest: Seq<Neighbor>) -> Seq<(usize, u32)> {
    Seq::new(
        slots.len(),
        |i: int|
            if i < nearest.len() {
                (nearest[i].index, cost_of(nearest[i].distance))
            } else {
                slots[i]
            },
    )
}

/// The distance to keep with a neighbour.
pub fn cost(distance: u64) -> (c: u32)
    ensures
        c == cost_of(distance),
{
    if distance < UNUSED as u64 {
        distance as u32
    } else {
        UNUSED - 1
    }
}

/// The width of the list of the best in a layer, for the insertion of a point of a level:
/// `width` in the layers up to the level, and 1 above it.
pub fn beam_width(level: usize, width: usize, layer: usize) -> (cap: usize)
    ensures
        cap == beam(level as nat, width as nat, layer as nat),
{
    if layer <= level {
        width
    } else {
        1
    }
}

/// Starts a search for `q` at the entry node, which has been fetched: the entry node, with
/// its distance from `q`, is the only node in the frontier and in the list of the best, and
/// the only node met.
pub fn begin<Met: Metric<T>, T>(
    metric: &Met,
    q: &T,
    searcher: &mut Searcher,
    entry: usize,
    entry_point: &T,
)
    ensures
        final(searcher).wf(),
        final(searcher)@.candidates == seq![
            Neighbor { index: entry, distance: metric.dist(q, entry_point) },
        ],
        final(searcher)@.nearest == final(searcher)@.candidates,
        final(searcher)@.seen == Set::<usize>::empty().insert(entry),
{
    let distance = metric.distance(q, entry_point);
    searcher.start(Neighbor { index: entry, distance }, entry);
}

/// Tells which node the search looks at next, and takes it off the frontier; `None` ends
/// the search of the layer.
pub fn next_candidate(searcher: &mut Searcher, cap: usize) -> (next: Option<usize>)
    requires
        old(searcher).wf(),
    ensures
        final(searcher).wf(),
        next == next_of(old(searcher)@, cap as nat),
        final(searcher)@ == after_next(old(searcher)@),
{
    match searcher.pop_candidate() {
        None => None,
        Some(c) => {
            let full = searcher.nearest_len();
            if full >= cap && full > 0 && c.distance > searcher.nearest_at(full - 1).distance {
                None
            } else {
                Some(c.index)
            }
        },
    }
}

/// Looks at the neighbours of the node that the search is at, which have been fetched with
/// their points, in slot order, and then tells which node the search looks at next, as
/// `next_candidate` does.
pub fn expand_fetched<Met: Metric<T>, T>(
    metric: &Met,
    q: &T,
    searcher: &mut Searcher,
    cap: usize,
    neighbours: &Vec<(usize, T)>,
) -> (next: Option<usize>)
    requires
        old(searcher).wf(),
    ensures
        final(searcher).wf(),
        next == next_of(
            met_all(*metric, *q, cap as nat, old(searcher)@, neighbours@, neighbours@.len() as int),
            cap as nat,
        ),
        final(searcher)@ == after_next(
            met_all(*metric, *q, cap as nat, old(searcher)@, neighbours@, neighbours@.len() as int),
        ),
{
    let ghost start = searcher@;
    let count = neighbours.len();
    let mut i: usize = 0;
    while i < count
        invariant
            0 <= i <= count,
            count == neighbours@.len(),
            searcher.wf(),
            searcher@ == met_all(*metric, *q, cap as nat, start, neighbours@, i as int),
        decreases count - i,
    {
        let ghost st = searcher@;
        let id = neighbours[i].0;
        if searcher.mark_seen(id) {
            let distance = metric.distance(q, &neighbours[i].1);
            searcher.offer(Neighbor { index: id, distance }, cap);
        } else {
            proof {
                assert(st.seen.insert(id) =~= st.seen);
            }
        }
        proof {
            assert(searcher@ == met(*metric, *q, cap as nat, st, id, neighbours@[i as int].1));
        }
        i += 1;
    }
    next_candidate(searcher, cap)
}

/// Readies the searcher for the layer below: the search goes on from the best node found,
/// and the nodes met stay met.
pub fn go_down_layer(searcher: &mut Searcher)
    requires
        old(searcher).wf(),
        old(searcher)@.nearest.len() > 0,
    ensures
        final(searcher).wf(),
        final(searcher)@.candidates == seq![old(searcher)@.nearest[0]],
        final(searcher)@.nearest == seq![old(searcher)@.nearest[0]],
        final(searcher)@.seen == old(searcher)@.seen,
{
    let best = searcher.nearest_at(0);
    searcher.restart(best);
}

/// Gives a new node the nodes found as its neighbours in a layer, nearest first, as far as
/// the list has slots.
pub fn assign_neighbors<const N: usize>(list: &mut NeighborNodes<N>, searcher: &Searcher)
    ensures
        final(list).neighbors@ == assigned(old(list).neighbors@, searcher@.nearest),
{
    let found = searcher.nearest_len();
    let n: usize = if found <= N {
        found
    } else {
        N
    };
    let ghost before = list.neighbors@;
    let mut i: usize = 0;
    while i < n
        invariant
            0 <= i <= n,
            n <= N,
            n <= searcher@.nearest.len(),
            before.len() == N,
            list.neighbors@.len() == N,
            forall|j: int|
                0 <= j < i ==> list.neighbors@[j] == (
                    searcher@.nearest[j].index,
                    cost_of(searcher@.nearest[j].distance),
                ),
            forall|j: int| i <= j < N ==> list.neighbors@[j] == before[j],
        decreases n - i,
    {
        let neighbor = searcher.nearest_at(i);
        list.assign(i, neighbor.index, cost(neighbor.distance));
        i += 1;
    }
    assert(list.neighbors@ =~= assigned(before, searcher@.nearest));
}

/// Offers the new node `node` to a node that was fetched: the new node goes into the
/// adjacency list of that node at its place by its distance, and the farthest neighbour of a
/// full list is lost.
pub fn add_neighbor<Met: Metric<T>, T, const N: usize>(
    metric: &Met,
    q: &T,
    node: usize,
    target: &T,
    list: &mut NeighborNodes<N>,
)
    ensures
        by_distance(old(list).neighbors@) ==> final(list).neighbors@ == with_neighbor(
            old(list).neighbors@,
            node,
            cost_of(metric.dist(q, target)),
        ),
{
    let distance = metric.distance(q, target);
    list.add_neighbor(node, cost(distance));
}

} // verus!
