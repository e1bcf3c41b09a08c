//! The order that a heap of alternating levels keeps among its elements, and how the order
//! is restored when one element is out of place.
//!
//! The heap is a sequence read as a binary tree: the place `i` has the places `2i + 1` and
//! `2i + 2` below it. The root is on level 0. An element on an even level is the greatest of
//! the subtree below it, an element on an odd level the least. It is enough to say this of
//! every place and the two places most closely above it.
use vstd::prelude::*;
use crate::min_max_heap::depth;
use crate::order::{le, lemma_order, total_order};

verus! {

/// The place above a place.
pub open spec fn up1(d: int) -> int {
    (d - 1) / 2
}

/// The place two levels above a place.
pub open spec fn up2(d: int) -> int {
    up1(up1(d))
}

/// The place three levels above a place.
pub open spec fn up3(d: int) -> int {
    up1(up2(d))
}

/// The place four levels above a place.
pub open spec fn up4(d: int) -> int {
    up1(up3(d))
}

/// Whether a place is on a level whose elements are the greatest of their subtrees.
pub open spec fn is_max(i: int) -> bool {
    depth(i as nat) % 2 == 0
}

/// `x` may stand above `y` where the upper place is of the given kind: it is no less than
/// `y` where the greatest stands above, and no greater where the least does.
pub open spec fn dom<T: Ord>(max: bool, x: T, y: T) -> bool {
    if max {
        le(y, x)
    } else {
        le(x, y)
    }
}

/// The element at the place `a` may stand above the element at the place `d`.
pub open spec fn rel<T: Ord>(e: Seq<T>, a: int, d: int) -> bool {
    dom(is_max(a), e[a], e[d])
}

/// The element at `d` is in order with the elements at the places up to four levels above
/// it, as far as the order is asked for while the element at `h` is out of place: with
/// the two places most closely above `d` unless one of them is `h`, and, where one of them
/// is `h`, with the places above `h` in its stead.
pub open spec fn node_ok<T: Ord>(e: Seq<T>, h: int, d: int) -> bool {
    &&& d >= 1 && up1(d) != h ==> rel(e, up1(d), d)
    &&& d >= 3 && up2(d) != h ==> rel(e, up2(d), d)
    &&& d >= 7 && (up1(d) == h || up2(d) == h) ==> rel(e, up3(d), d)
    &&& d >= 15 && up2(d) == h ==> rel(e, up4(d), d)
}

/// The heap is in order but for the element at `h`.
pub open spec fn holed<T: Ord>(e: Seq<T>, h: int) -> bool {
    forall|d: int| 0 <= d < e.len() && d != h ==> #[trigger] node_ok(e, h, d)
}

/// The heap is in order.
pub open spec fn valid<T: Ord>(e: Seq<T>) -> bool {
    holed(e, -1)
}

/// The element at `h` is in order with the elements at the two places most closely above
/// it.
pub open spec fn up_ok<T: Ord>(e: Seq<T>, h: int) -> bool {
    &&& h >= 1 ==> rel(e, up1(h), h)
    &&& h >= 3 ==> rel(e, up2(h), h)
}

/// The element at `h` is in order with the elements at the places up to two levels below
/// it.
pub open spec fn down_ok<T: Ord>(e: Seq<T>, h: int) -> bool {
    forall|d: int|
        0 <= d < e.len() && ((d >= 1 && up1(d) == h) || (d >= 3 && up2(d) == h)) ==> #[trigger] rel(
            e,
            h,
            d,
        )
}

/// The element at `x` may stand above every element up to two levels below `h`, and above
/// the element at `h`.
pub open spec fn extreme<T: Ord>(e: Seq<T>, h: int, x: int) -> bool {
    &&& dom(is_max(h), e[x], e[h])
    &&& forall|d: int|
        0 <= d < e.len() && ((d >= 1 && up1(d) == h) || (d >= 3 && up2(d) == h)) ==> #[trigger] dom(
            is_max(h),
            e[x],
            e[d],
        )
}

/// A sequence with the elements at two places exchanged.
pub open spec fn swapped<T>(e: Seq<T>, a: int, b: int) -> Seq<T> {
    e.update(a, e[b]).update(b, e[a])
}

/// The levels alternate: a place is of the other kind than the place above it.
pub proof fn lemma_parity(d: int)
    requires
        d >= 1,
    ensures
        is_max(d) == !is_max(up1(d)),
        up1(d) >= 0,
        up1(d) < d,
{
}

/// The kinds of the places up to four levels above a place.
pub proof fn lemma_parities(d: int)
    requires
        d >= 0,
    ensures
        d >= 1 ==> is_max(up1(d)) == !is_max(d) && 0 <= up1(d) < d,
        d >= 3 ==> is_max(up2(d)) == is_max(d) && 0 <= up2(d) < up1(d) && up1(d) >= 1,
        d >= 7 ==> is_max(up3(d)) == !is_max(d) && 0 <= up3(d) < up2(d) && up2(d) >= 1,
        d >= 15 ==> is_max(up4(d)) == is_max(d) && 0 <= up4(d) < up3(d) && up3(d) >= 1,
{
    if d >= 1 {
        lemma_parity(d);
    }
    if d >= 3 {
        lemma_parity(up1(d));
    }
    if d >= 7 {
        lemma_parity(up2(d));
    }
    if d >= 15 {
        lemma_parity(up3(d));
    }
}

/// A heap in order but for an element that is in order with the places above and below it
/// is in order.
pub proof fn lemma_mended<T: Ord>(e: Seq<T>, h: int)
    requires
        0 <= h < e.len(),
        holed(e, h),
        up_ok(e, h),
        down_ok(e, h),
    ensures
        valid(e),
{
    assert forall|d: int| 0 <= d < e.len() && d != -1 implies #[trigger] node_ok(e, -1, d) by {
        if d != h {
            assert(node_ok(e, h, d));
            if d >= 1 && up1(d) == h {
                assert(rel(e, h, d));
            }
            if d >= 3 && up2(d) == h {
                assert(rel(e, h, d));
            }
        }
    }
}

/// In a heap in order, no element is greater than the root.
pub proof fn lemma_root_is_greatest<T: Ord>(e: Seq<T>, i: int)
    requires
        total_order::<T>(),
        valid(e),
        0 <= i < e.len(),
    ensures
        le(e[i], e[0]),
    decreases i,
{
    lemma_order::<T>();
    lemma_parities(i);
    if i >= 1 {
        assert(node_ok(e, -1, i));
        if is_max(i) {
            assert(i >= 3) by {
                if i < 3 {
                    lemma_parity(i);
                    assert(up1(i) == 0);
                }
            }
            lemma_root_is_greatest(e, up2(i));
        } else {
            lemma_root_is_greatest(e, up1(i));
        }
    }
}

/// In a heap in order that holds more than one element, one of the two elements below the
/// root is no greater than any element.
pub proof fn lemma_least_is_below_root<T: Ord>(e: Seq<T>, i: int)
    requires
        total_order::<T>(),
        valid(e),
        e.len() >= 2,
        0 <= i < e.len(),
    ensures
        le(e[1], e[i]) || (e.len() >= 3 && le(e[2], e[i])),
    decreases i,
{
    lemma_order::<T>();
    lemma_parities(i);
    if i == 0 {
        assert(node_ok(e, -1, 1));
        lemma_parity(1);
    } else if i >= 3 {
        assert(node_ok(e, -1, i));
        if is_max(i) {
            lemma_least_is_below_root(e, up1(i));
        } else {
            assert(i >= 7) by {
                if i < 7 {
                    lemma_parity(up1(i));
                    lemma_parity(i);
                    assert(up1(up1(i)) == 0);
                }
            }
            lemma_least_is_below_root(e, up2(i));
        }
    }
}

} // verus!

verus! {

/// An element that is out of order with the element above it changes places with it; after
/// that, the element that has moved up is the only one out of place, and it is in order
/// with the elements below it.
pub proof fn lemma_up_parent<T: Ord>(e: Seq<T>, k: int)
    requires
        total_order::<T>(),
        1 <= k < e.len(),
        holed(e, k),
        down_ok(e, k),
        !rel(e, up1(k), k),
    ensures
        holed(swapped(e, k, up1(k)), up1(k)),
        down_ok(swapped(e, k, up1(k)), up1(k)),
{
    lemma_order::<T>();
    let p = up1(k);
    let n = swapped(e, k, p);
    lemma_parities(k);
    lemma_parities(p);
    assert(node_ok(e, k, p));
    assert forall|d: int| 0 <= d < n.len() && d != p implies #[trigger] node_ok(n, p, d) by {
        lemma_parities(d);
        if d != k {
            assert(node_ok(e, k, d));
        }
        if d >= 1 && up1(d) != k {
            assert(node_ok(e, k, up1(d)));
        }
        if d >= 3 && up2(d) != k {
            assert(node_ok(e, k, up2(d)));
        }
        if d >= 1 && up1(d) == k {
            assert(rel(e, k, d));
        }
        if d >= 3 && up2(d) == k {
            assert(rel(e, k, d));
            assert(rel(e, k, up1(d)));
        }
    }
    assert forall|d: int|
        0 <= d < n.len() && ((d >= 1 && up1(d) == p) || (d >= 3 && up2(d) == p)) implies #[trigger] rel(
        n,
        p,
        d,
    ) by {
        lemma_parities(d);
        if d != k {
            assert(node_ok(e, k, d));
        }
    }
}

/// An element that is in order with the element above it, but not with the element two
/// levels above, changes places with that one; after that, the element that has moved up
/// is the only one out of place, and it is in order with the elements below it.
pub proof fn lemma_up_grandparent<T: Ord>(e: Seq<T>, k: int)
    requires
        total_order::<T>(),
        3 <= k < e.len(),
        holed(e, k),
        down_ok(e, k),
        rel(e, up1(k), k),
        !rel(e, up2(k), k),
    ensures
        holed(swapped(e, k, up2(k)), up2(k)),
        down_ok(swapped(e, k, up2(k)), up2(k)),
{
    lemma_order::<T>();
    let p = up1(k);
    let g = up2(k);
    let n = swapped(e, k, g);
    lemma_parities(k);
    lemma_parities(p);
    lemma_parities(g);
    assert(node_ok(e, k, p));
    assert(node_ok(e, k, g));
    assert forall|d: int| 0 <= d < n.len() && d != g implies #[trigger] node_ok(n, g, d) by {
        lemma_parities(d);
        if d != k {
            assert(node_ok(e, k, d));
        }
        if d >= 1 && up1(d) != k {
            assert(node_ok(e, k, up1(d)));
        }
        if d >= 3 && up2(d) != k {
            assert(node_ok(e, k, up2(d)));
        }
    }
    assert forall|d: int|
        0 <= d < n.len() && ((d >= 1 && up1(d) == g) || (d >= 3 && up2(d) == g)) implies #[trigger] rel(
        n,
        g,
        d,
    ) by {
        lemma_parities(d);
        if d != k {
            assert(node_ok(e, k, d));
        }
    }
}

/// An element that is out of place changes places with the element one level below it that
/// may stand above all elements up to two levels below; after that, the element that has
/// moved down is the only one out of place.
pub proof fn lemma_down_child<T: Ord>(e: Seq<T>, h: int, c: int)
    requires
        total_order::<T>(),
        0 <= h,
        c < e.len(),
        up1(c) == h,
        c >= 1,
        holed(e, h),
        extreme(e, h, c),
    ensures
        holed(swapped(e, h, c), c),
{
    lemma_order::<T>();
    let n = swapped(e, h, c);
    lemma_parities(h);
    lemma_parities(c);
    assert(node_ok(e, h, c));
    assert forall|d: int| 0 <= d < n.len() && d != c implies #[trigger] node_ok(n, c, d) by {
        lemma_parities(d);
        if d != h {
            assert(node_ok(e, h, d));
        }
        if d >= 1 && up1(d) != h {
            assert(node_ok(e, h, up1(d)));
        }
        if d >= 3 && up2(d) != h {
            assert(node_ok(e, h, up2(d)));
        }
        if d >= 1 && up1(d) == h {
            assert(dom(is_max(h), e[c], e[d]));
        }
        if d >= 3 && up2(d) == h {
            assert(dom(is_max(h), e[c], e[d]));
        }
        if d >= 7 && up3(d) == h {
            assert(dom(is_max(h), e[c], e[up1(d)]));
        }
    }
}

/// An element that is out of place changes places with the element two levels below it
/// that may stand above all elements up to two levels below; after that, the element that
/// has moved down is the only one out of place.
pub proof fn lemma_down_grandchild<T: Ord>(e: Seq<T>, h: int, g: int)
    requires
        total_order::<T>(),
        0 <= h,
        g < e.len(),
        g >= 3,
        up2(g) == h,
        holed(e, h),
        extreme(e, h, g),
    ensures
        holed(swapped(e, h, g), g),
{
    lemma_order::<T>();
    let n = swapped(e, h, g);
    let c = up1(g);
    lemma_parities(h);
    lemma_parities(g);
    lemma_parities(c);
    assert(node_ok(e, h, g));
    assert(node_ok(e, h, c));
    assert forall|d: int| 0 <= d < n.len() && d != g implies #[trigger] node_ok(n, g, d) by {
        lemma_parities(d);
        if d != h {
            assert(node_ok(e, h, d));
        }
        if d >= 1 && up1(d) != h {
            assert(node_ok(e, h, up1(d)));
        }
        if d >= 3 && up2(d) != h {
            assert(node_ok(e, h, up2(d)));
        }
        if d >= 1 && up1(d) == h {
            assert(dom(is_max(h), e[g], e[d]));
        }
        if d >= 3 && up2(d) == h {
            assert(dom(is_max(h), e[g], e[d]));
        }
    }
}

} // verus!

verus! {

/// A new element at the end of a heap in order is the only one out of place, and nothing
/// lies below it.
pub proof fn lemma_pushed<T: Ord>(e: Seq<T>, v: T)
    requires
        valid(e),
    ensures
        holed(e.push(v), e.len() as int),
        down_ok(e.push(v), e.len() as int),
{
    let n = e.push(v);
    assert forall|d: int| 0 <= d < n.len() && d != e.len() implies #[trigger] node_ok(
        n,
        e.len() as int,
        d,
    ) by {
        assert(node_ok(e, -1, d));
    }
}

/// A heap in order without its last element is in order.
pub proof fn lemma_without_last<T: Ord>(e: Seq<T>)
    requires
        valid(e),
        e.len() >= 1,
    ensures
        valid(e.drop_last()),
{
    let n = e.drop_last();
    assert forall|d: int| 0 <= d < n.len() && d != -1 implies #[trigger] node_ok(n, -1, d) by {
        assert(node_ok(e, -1, d));
    }
}

/// Where the last element of a heap in order takes the place of the root or of an element
/// just below it, it is the only element out of place.
pub proof fn lemma_replaced<T: Ord>(e: Seq<T>, h: int)
    requires
        total_order::<T>(),
        valid(e),
        0 <= h <= 2,
        h < e.len() - 1,
    ensures
        holed(e.update(h, e.last()).drop_last(), h),
{
    let n = e.update(h, e.last()).drop_last();
    assert forall|d: int| 0 <= d < n.len() && d != h implies #[trigger] node_ok(n, h, d) by {
        assert(node_ok(e, -1, d));
        lemma_parities(d);
        if d >= 7 && (up1(d) == h || up2(d) == h) {
            assert(up3(d) == 0);
            lemma_root_is_greatest(e, d);
        }
    }
}

/// No element is greater than the root.
pub open spec fn under_root<T: Ord>(e: Seq<T>) -> bool {
    forall|i: int| 0 <= i < e.len() ==> le(#[trigger] e[i], e[0])
}

/// Exchanging two elements below the root leaves no element greater than the root, if none
/// was before.
pub proof fn lemma_swap_under_root<T: Ord>(e: Seq<T>, a: int, b: int)
    requires
        under_root(e),
        1 <= a < e.len(),
        1 <= b < e.len(),
    ensures
        under_root(swapped(e, a, b)),
        swapped(e, a, b)[0] == e[0],
{
    let n = swapped(e, a, b);
    assert forall|i: int| 0 <= i < n.len() implies le(#[trigger] n[i], n[0]) by {
        if i == a {
            assert(n[i] == e[b]);
        } else if i == b {
            assert(n[i] == e[a]);
        } else {
            assert(n[i] == e[i]);
        }
    }
}

} // verus!
