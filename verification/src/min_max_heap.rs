//! A double-ended priority queue: a heap whose levels alternate between holding the
//! greatest and the least element of the subtree below them, the root holding the greatest
//! element of all.
use vstd::prelude::*;
use vstd::arithmetic::power2::{lemma_pow2_strictly_increases, lemma_pow2_unfold, pow2};

use crate::heap_shape::{
    dom, down_ok, extreme, holed, is_max, lemma_down_child, lemma_down_grandchild,
    lemma_least_is_below_root, lemma_mended, lemma_parities, lemma_parity, lemma_pushed,
    lemma_replaced, lemma_root_is_greatest, lemma_swap_under_root, lemma_up_grandparent,
    lemma_up_parent, lemma_without_last, rel, under_root, up1, up2, valid,
};
use crate::order::{greater, le, lemma_order, less, less_eq, total_order};

verus! {

/// How many levels lie above a place of the heap: 0 for the root.
pub open spec fn depth(i: nat) -> nat
    decreases i,
{
    if i == 0 {
        0
    } else {
        1 + depth(((i - 1) / 2) as nat)
    }
}

/// A place of depth `d` is one of the `2^d` places from `2^d - 1` on.
pub proof fn lemma_depth(i: nat)
    ensures
        pow2(depth(i)) <= i + 1 < pow2(depth(i) + 1),
    decreases i,
{
    vstd::arithmetic::power2::lemma2_to64();
    if i == 0 {
    } else {
        let p = ((i - 1) / 2) as nat;
        lemma_depth(p);
        lemma_pow2_unfold(depth(i));
        lemma_pow2_unfold(depth(i) + 1);
    }
}

/// Calls `usize::ilog2`, which gives the logarithm to base 2, rounded down, of a number
/// that is not 0.
#[verifier::external_body]
fn ilog2(x: usize) -> (r: u32)
    requires
        x > 0,
    ensures
        pow2(r as nat) <= x < pow2((r + 1) as nat),
{
    x.ilog2()
}

/// Calls `<[T]>::swap`, which exchanges two elements of a slice.
#[verifier::external_body]
fn swap<T>(v: &mut Vec<T>, a: usize, b: usize)
    requires
        a < old(v)@.len(),
        b < old(v)@.len(),
    ensures
        final(v)@ == old(v)@.update(a as int, old(v)@[b as int]).update(b as int, old(v)@[a as int]),
{
    v.swap(a, b)
}

/// Replacing an element of a sequence takes the old element out of its multiset and puts
/// the new one in.
pub proof fn lemma_update_multiset<T>(s: Seq<T>, i: int, a: T)
    requires
        0 <= i < s.len(),
    ensures
        s.update(i, a).to_multiset() == s.to_multiset().remove(s[i]).insert(a),
{
    let u = s.update(i, a);
    assert(u.len() == s.len());
    assert(u[i] == a);
    s.to_multiset_ensures();
    u.to_multiset_ensures();
    assert(u.remove(i) =~= s.remove(i));
    assert(u.remove(i).to_multiset() =~= u.to_multiset().remove(a));
    assert(s.remove(i).to_multiset() =~= s.to_multiset().remove(s[i]));
    assert(u.contains(a));
    assert(u.to_multiset().count(a) > 0);
    assert(u.to_multiset() =~= u.to_multiset().remove(a).insert(a));
    assert(u.to_multiset() =~= s.to_multiset().remove(s[i]).insert(a));
}

/// Exchanging two elements of a sequence keeps its multiset.
pub proof fn lemma_swap_multiset<T>(s: Seq<T>, i: int, j: int)
    requires
        0 <= i < s.len(),
        0 <= j < s.len(),
    ensures
        s.update(i, s[j]).update(j, s[i]).to_multiset() == s.to_multiset(),
{
    let u = s.update(i, s[j]);
    lemma_update_multiset(s, i, s[j]);
    lemma_update_multiset(u, j, s[i]);
    s.to_multiset_ensures();
    assert(s.contains(s[i]) && s.contains(s[j])) by {
        assert(s[i] == s[i] && s[j] == s[j]);
    }
    if i == j {
        assert(s.update(i, s[j]).update(j, s[i]) =~= s);
    } else {
        assert(u[j] == s[j]);
        assert(u.update(j, s[i]).to_multiset() =~= s.to_multiset());
    }
}

/// A heap from which both the least and the greatest element can be taken.
#[derive(Clone, Debug)]
pub struct MinMaxHeap<T: Ord> {
    elements: Vec<T>,
}

impl<T: Ord> MinMaxHeap<T> {
    /// The elements in the order in which the heap keeps them.
    pub closed spec fn elements(&self) -> Seq<T> {
        self.elements@
    }

    /// The heap is in order: an element on an even level is no less than the elements of
    /// the subtree below it, and an element on an odd level no greater.
    pub open spec fn wf(&self) -> bool {
        valid(self.elements())
    }

    /// An empty heap.
    pub fn new() -> (heap: Self)
        ensures
            heap.elements() == Seq::<T>::empty(),
            heap.wf(),
    {
        MinMaxHeap { elements: Vec::new() }
    }

    /// An empty heap with room for `capacity` elements.
    pub fn with_capacity(capacity: usize) -> (heap: Self)
        ensures
            heap.elements() == Seq::<T>::empty(),
            heap.wf(),
    {
        MinMaxHeap { elements: Vec::with_capacity(capacity) }
    }

    /// Takes every element out.
    pub fn clear(&mut self)
        ensures
            final(self).elements() == Seq::<T>::empty(),
            final(self).wf(),
    {
        self.elements.clear();
    }

    /// The number of elements.
    pub fn len(&self) -> (n: usize)
        ensures
            n == self.elements().len(),
    {
        self.elements.len()
    }

    /// Walks over the elements in the order in which the heap keeps them, which starts
    /// with the greatest.
    pub fn iter(&self) -> (items: core::slice::Iter<'_, T>)
        ensures
            vstd::std_specs::slice::into_iter_elts(items) == self.elements(),
    {
        let items = self.elements.iter();
        proof {
            broadcast use vstd::std_specs::slice::axiom_spec_slice_iter;

            assert(vstd::std_specs::slice::into_iter_elts(items) =~= self.elements());
        }
        items
    }

    /// The place above a place, and the root for the root.
    fn to_parent(index: usize) -> (parent: usize)
        ensures
            index == 0 ==> parent == 0,
            index > 0 ==> parent == (index - 1) / 2,
    {
        if index == 0 {
            0
        } else {
            (index - 1) / 2
        }
    }

    /// The depth of a place.
    fn level(index: usize) -> (level: usize)
        requires
            index < usize::MAX,
        ensures
            level == depth(index as nat),
    {
        let r = ilog2(index + 1);
        proof {
            let d = depth(index as nat);
            lemma_depth(index as nat);
            if (r as nat) < d {
                if r + 1 < d {
                    lemma_pow2_strictly_increases((r + 1) as nat, d);
                }
            } else if (r as nat) > d {
                if d + 1 < r {
                    lemma_pow2_strictly_increases(d + 1, r as nat);
                }
            }
        }
        r as usize
    }

    /// Whether a level holds the greatest elements of the subtrees below it.
    fn is_max_level(level: usize) -> (max: bool)
        ensures
            max == (level % 2 == 0),
    {
        level % 2 == 0
    }

    /// Whether a level holds the least elements of the subtrees below it.
    fn is_min_level(level: usize) -> (min: bool)
        ensures
            min == (level % 2 == 1),
    {
        level % 2 == 1
    }

    /// The `k`-th of the two places below a place, if the heap reaches that far.
    fn child(&self, current: usize, k: usize) -> (below: Option<usize>)
        requires
            1 <= k <= 2,
        ensures
            below is Some <==> 2 * current + k < self.elements().len(),
            below is Some ==> below->0 == 2 * current + k,
    {
        let len = self.elements.len();
        if len > k && current <= (len - 1 - k) / 2 {
            Some(2 * current + k)
        } else {
            None
        }
    }

    /// The place of the lesser of the elements at `best` and at `other`; `best` where
    /// neither is less.
    fn lesser(&self, best: usize, other: Option<usize>) -> (pick: usize)
        requires
            best < self.elements().len(),
            other matches Some(o) ==> o < self.elements().len(),
        ensures
            pick == best || other == Some(pick),
            total_order::<T>() ==> le(self.elements()[pick as int], self.elements()[best as int]),
            total_order::<T>() && other is Some ==> le(
                self.elements()[pick as int],
                self.elements()[other->0 as int],
            ),
    {
        proof {
            if total_order::<T>() {
                lemma_order::<T>();
            }
        }
        match other {
            Some(o) => {
                if less(&self.elements[o], &self.elements[best]) {
                    o
                } else {
                    best
                }
            },
            None => best,
        }
    }

    /// The place of the greater of the elements at `best` and at `other`; `best` where
    /// neither is greater.
    fn greater(&self, best: usize, other: Option<usize>) -> (pick: usize)
        requires
            best < self.elements().len(),
            other matches Some(o) ==> o < self.elements().len(),
        ensures
            pick == best || other == Some(pick),
            total_order::<T>() ==> le(self.elements()[best as int], self.elements()[pick as int]),
            total_order::<T>() && other is Some ==> le(
                self.elements()[other->0 as int],
                self.elements()[pick as int],
            ),
    {
        proof {
            if total_order::<T>() {
                lemma_order::<T>();
            }
        }
        match other {
            Some(o) => {
                if greater(&self.elements[o], &self.elements[best]) {
                    o
                } else {
                    best
                }
            },
            None => best,
        }
    }

    /// The `k`-th place below the place `below`, where there is such a place.
    fn grandchild(&self, below: Option<usize>, k: usize) -> (place: Option<usize>)
        requires
            1 <= k <= 2,
        ensures
            place is Some ==> below is Some && place->0 == 2 * below->0 + k && place->0
                < self.elements().len(),
            below is Some && 2 * below->0 + k < self.elements().len() ==> place is Some,
    {
        match below {
            Some(c) => self.child(c, k),
            None => None,
        }
    }

    /// The least element: the root of a heap of one, and else the lesser of the two
    /// elements below the root.
    pub fn peek_min(&self) -> (least: Option<&T>)
        ensures
            self.elements().len() == 0 <==> least is None,
            least matches Some(x) ==> self.elements().contains(*x),
            total_order::<T>() && self.wf() && least is Some ==> forall|i: int|
                0 <= i < self.elements().len() ==> le(*least->0, #[trigger] self.elements()[i]),
    {
        let len = self.elements.len();
        if len == 0 {
            None
        } else if len == 1 {
            proof {
                if total_order::<T>() {
                    lemma_order::<T>();
                }
            }
            Some(&self.elements[0])
        } else {
            let left: usize = 1;
            let right: usize = 2;
            proof {
                if total_order::<T>() && self.wf() {
                    lemma_order::<T>();
                    assert forall|i: int| 0 <= i < self.elements().len() implies le(
                        self.elements()[1],
                        #[trigger] self.elements()[i],
                    ) || (len >= 3 && le(self.elements()[2], self.elements()[i])) by {
                        lemma_least_is_below_root(self.elements(), i);
                    }
                }
            }
            if right >= len || less_eq(&self.elements[left], &self.elements[right]) {
                Some(&self.elements[left])
            } else {
                Some(&self.elements[right])
            }
        }
    }

    /// The greatest element: the root.
    pub fn peek_max(&self) -> (greatest: Option<&T>)
        ensures
            self.elements().len() == 0 <==> greatest is None,
            greatest matches Some(x) ==> *x == self.elements()[0],
            total_order::<T>() && self.wf() && greatest is Some ==> forall|i: int|
                0 <= i < self.elements().len() ==> le(#[trigger] self.elements()[i], *greatest->0),
    {
        if self.elements.len() == 0 {
            None
        } else {
            proof {
                if total_order::<T>() && self.wf() {
                    assert forall|i: int| 0 <= i < self.elements().len() implies le(
                        #[trigger] self.elements()[i],
                        self.elements()[0],
                    ) by {
                        lemma_root_is_greatest(self.elements(), i);
                    }
                }
            }
            Some(&self.elements[0])
        }
    }

    /// Puts an element into the heap.
    pub fn push(&mut self, value: T)
        ensures
            final(self).elements().to_multiset() == old(self).elements().to_multiset().insert(
                value,
            ),
            final(self).elements().len() == old(self).elements().len() + 1,
            total_order::<T>() && old(self).wf() ==> final(self).wf(),
    {
        proof {
            self.elements@.to_multiset_ensures();
            if total_order::<T>() && self.wf() {
                lemma_pushed(self.elements(), value);
            }
        }
        self.elements.push(value);
        let index = self.elements.len() - 1;
        self.sift_up(index);
    }

    /// Moves the element at `index` up until the elements above it are in order with it.
    fn sift_up(&mut self, index: usize)
        requires
            index < old(self).elements().len(),
        ensures
            final(self).elements().to_multiset() == old(self).elements().to_multiset(),
            final(self).elements().len() == old(self).elements().len(),
            total_order::<T>() && holed(old(self).elements(), index as int) && down_ok(
                old(self).elements(),
                index as int,
            ) ==> final(self).wf(),
            total_order::<T>() && under_root(old(self).elements()) ==> final(self).elements()[0]
                == old(self).elements()[0] && under_root(final(self).elements()),
    {
        let ghost good = total_order::<T>() && holed(self.elements(), index as int) && down_ok(
            self.elements(),
            index as int,
        );
        let ghost kept = total_order::<T>() && under_root(self.elements());
        let mut index = index;
        proof {
            if good {
                lemma_order::<T>();
            }
        }
        loop
            invariant_except_break
                good ==> total_order::<T>() && holed(self.elements(), index as int) && down_ok(
                    self.elements(),
                    index as int,
                ),
            invariant
                index < self.elements().len(),
                self.elements().to_multiset() == old(self).elements().to_multiset(),
                self.elements().len() == old(self).elements().len(),
                kept ==> total_order::<T>() && under_root(self.elements()) && self.elements()[0]
                    == old(self).elements()[0],
            ensures
                good ==> self.wf(),
            decreases index,
        {
            if index == 0 {
                proof {
                    if good {
                        lemma_mended(self.elements(), 0);
                    }
                }
                break ;
            }
            let len = self.elements.len();
            let parent = Self::to_parent(index);
            let current_level = Self::level(index);
            let ghost before = self.elements();
            proof {
                lemma_parities(index as int);
                if good || kept {
                    lemma_order::<T>();
                }
                if kept {
                    // No element is greater than the root, so none changes places with it.
                    assert(le(before[index as int], before[0]));
                    if parent >= 1 {
                        lemma_swap_under_root(before, index as int, parent as int);
                    }
                    if parent >= 1 && up2(index as int) >= 1 {
                        lemma_swap_under_root(before, index as int, up2(index as int));
                    }
                }
            }
            if Self::is_max_level(current_level) {
                if less(&self.elements[index], &self.elements[parent]) {
                    swap(&mut self.elements, index, parent);
                    proof {
                        lemma_swap_multiset(before, index as int, parent as int);
                        if good {
                            lemma_up_parent(before, index as int);
                        }
                    }
                    index = parent;
                } else {
                    let grandparent = Self::to_parent(parent);
                    if grandparent != parent && greater(
                        &self.elements[index],
                        &self.elements[grandparent],
                    ) {
                        swap(&mut self.elements, index, grandparent);
                        proof {
                            lemma_swap_multiset(before, index as int, grandparent as int);
                            if good {
                                lemma_up_grandparent(before, index as int);
                            }
                        }
                        index = grandparent;
                    } else {
                        proof {
                            if good {
                                lemma_mended(before, index as int);
                            }
                        }
                        break ;
                    }
                }
            } else {
                if greater(&self.elements[index], &self.elements[parent]) {
                    swap(&mut self.elements, index, parent);
                    proof {
                        lemma_swap_multiset(before, index as int, parent as int);
                        if good {
                            lemma_up_parent(before, index as int);
                        }
                    }
                    index = parent;
                } else {
                    let grandparent = Self::to_parent(parent);
                    if grandparent != parent && less(
                        &self.elements[index],
                        &self.elements[grandparent],
                    ) {
                        swap(&mut self.elements, index, grandparent);
                        proof {
                            lemma_swap_multiset(before, index as int, grandparent as int);
                            if good {
                                lemma_up_grandparent(before, index as int);
                            }
                        }
                        index = grandparent;
                    } else {
                        proof {
                            if good {
                                lemma_mended(before, index as int);
                            }
                        }
                        break ;
                    }
                }
            }
        }
    }

    /// Takes the greatest element out.
    pub fn pop_max(&mut self) -> (greatest: Option<T>)
        ensures
            old(self).elements().len() == 0 <==> greatest is None,
            greatest is None ==> final(self).elements() == old(self).elements(),
            greatest matches Some(x) ==> x == old(self).elements()[0] && final(self).elements().to_multiset() == old(self).elements().to_multiset().remove(x),
            total_order::<T>() && old(self).wf() ==> final(self).wf(),
            total_order::<T>() && old(self).wf() && greatest is Some ==> forall|i: int|
                0 <= i < old(self).elements().len() ==> le(
                    #[trigger] old(self).elements()[i],
                    greatest->0,
                ),
    {
        if self.elements.len() == 0 {
            return None;
        }
        let ghost before = self.elements();
        proof {
            if total_order::<T>() && self.wf() {
                assert forall|i: int| 0 <= i < before.len() implies le(
                    #[trigger] before[i],
                    before[0],
                ) by {
                    lemma_root_is_greatest(before, i);
                }
                if before.len() >= 2 {
                    lemma_replaced(before, 0);
                } else {
                    lemma_without_last(before);
                }
            }
        }
        let max = self.elements.swap_remove(0);
        proof {
            lemma_swap_remove_multiset(before, 0);
        }
        if self.elements.len() != 0 {
            let current = self.sift_down_max(0);
            self.sift_up(current);
        }
        Some(max)
    }

    /// Takes the least element out. The greatest element stays at the root.
    pub fn pop_min(&mut self) -> (least: Option<T>)
        ensures
            old(self).elements().len() == 0 <==> least is None,
            least is None ==> final(self).elements() == old(self).elements(),
            least matches Some(x) ==> old(self).elements().contains(x) && final(self).elements().to_multiset() == old(self).elements().to_multiset().remove(x),
            total_order::<T>() && old(self).wf() ==> final(self).wf(),
            total_order::<T>() && old(self).wf() && least is Some ==> forall|i: int|
                0 <= i < old(self).elements().len() ==> le(
                    least->0,
                    #[trigger] old(self).elements()[i],
                ),
            total_order::<T>() && old(self).wf() && old(self).elements().len() >= 2 ==> final(self).elements()[0] == old(self).elements()[0],
    {
        let len = self.elements.len();
        if len == 0 {
            return None;
        }
        let ghost before = self.elements();
        let ghost good = total_order::<T>() && self.wf();
        proof {
            if good {
                lemma_order::<T>();
                if len >= 2 {
                    assert forall|i: int| 0 <= i < before.len() implies le(
                        before[1],
                        #[trigger] before[i],
                    ) || (len >= 3 && le(before[2], before[i])) by {
                        lemma_least_is_below_root(before, i);
                    }
                }
            }
        }
        let min_index: usize = if len == 1 {
            0
        } else {
            let left: usize = 1;
            let right: usize = 2;
            if right >= len || less_eq(&self.elements[left], &self.elements[right]) {
                left
            } else {
                right
            }
        };
        proof {
            if good {
                if min_index < len - 1 {
                    lemma_replaced(before, min_index as int);
                } else {
                    lemma_without_last(before);
                    assert(before.update(min_index as int, before.last()).drop_last()
                        =~= before.drop_last());
                }
                lemma_parity(1);
                lemma_parity(2);
            }
        }
        let min = self.elements.swap_remove(min_index);
        proof {
            lemma_swap_remove_multiset(before, min_index as int);
            if good && len >= 2 {
                let after = self.elements();
                assert forall|i: int| 0 <= i < after.len() implies le(
                    #[trigger] after[i],
                    after[0],
                ) by {
                    lemma_root_is_greatest(before, i);
                    lemma_root_is_greatest(before, before.len() - 1);
                }
            }
        }
        if min_index < self.elements.len() {
            let current = self.sift_down_min(min_index);
            self.sift_up(current);
        }
        Some(min)
    }

    /// Takes the `k` least elements out, least first; all of them where there are fewer.
    pub fn pop_min_k(&mut self, k: usize) -> (least: Vec<T>)
        ensures
            least@.len() == if k <= old(self).elements().len() {
                k as nat
            } else {
                old(self).elements().len()
            },
            least@.to_multiset().add(final(self).elements().to_multiset()) == old(self).elements().to_multiset(),
            total_order::<T>() && old(self).wf() ==> final(self).wf(),
            total_order::<T>() && old(self).wf() ==> forall|i: int, j: int|
                0 <= i <= j < least@.len() ==> le(#[trigger] least@[i], #[trigger] least@[j]),
            total_order::<T>() && old(self).wf() ==> forall|i: int, j: int|
                0 <= i < least@.len() && 0 <= j < final(self).elements().len() ==> le(
                    #[trigger] least@[i],
                    #[trigger] final(self).elements()[j],
                ),
    {
        let mut result: Vec<T> = Vec::with_capacity(k);
        let mut i: usize = 0;
        let ghost good = total_order::<T>() && self.wf();
        proof {
            assert(result@.to_multiset().add(self.elements().to_multiset())
                =~= self.elements().to_multiset()) by {
                result@.to_multiset_ensures();
            }
        }
        while i < k
            invariant
                0 <= i <= k,
                result@.len() == i,
                i + self.elements().len() == old(self).elements().len(),
                result@.to_multiset().add(self.elements().to_multiset()) == old(self).elements().to_multiset(),
                good ==> total_order::<T>() && self.wf(),
                good ==> forall|a: int, b: int|
                    0 <= a <= b < result@.len() ==> le(#[trigger] result@[a], #[trigger] result@[b]),
                good ==> forall|a: int, b: int|
                    0 <= a < result@.len() && 0 <= b < self.elements().len() ==> le(
                        #[trigger] result@[a],
                        #[trigger] self.elements()[b],
                    ),
            ensures
                result@.len() == if k <= old(self).elements().len() {
                    k as nat
                } else {
                    old(self).elements().len()
                },
                result@.to_multiset().add(self.elements().to_multiset()) == old(self).elements().to_multiset(),
                good ==> self.wf(),
                good ==> forall|a: int, b: int|
                    0 <= a <= b < result@.len() ==> le(#[trigger] result@[a], #[trigger] result@[b]),
                good ==> forall|a: int, b: int|
                    0 <= a < result@.len() && 0 <= b < self.elements().len() ==> le(
                        #[trigger] result@[a],
                        #[trigger] self.elements()[b],
                    ),
            decreases k - i,
        {
            let ghost heap_before = self.elements();
            let ghost result_before = result@;
            match self.pop_min() {
                Some(min) => {
                    result.push(min);
                    proof {
                        heap_before.to_multiset_ensures();
                        self.elements().to_multiset_ensures();
                        result_before.to_multiset_ensures();
                        assert(heap_before.to_multiset().count(min) > 0);
                        assert(self.elements().len() + 1 == heap_before.len()) by {
                            assert(heap_before.to_multiset() =~= self.elements().to_multiset().insert(
                                min,
                            ));
                        }
                        assert(result@.to_multiset().add(self.elements().to_multiset())
                            =~= result_before.to_multiset().add(heap_before.to_multiset()));
                        if good {
                            lemma_order::<T>();
                            let ix = choose|ix: int| 0 <= ix < heap_before.len() && heap_before[ix] == min;
                            assert forall|b: int| 0 <= b < self.elements().len() implies exists|c: int|
                                0 <= c < heap_before.len() && heap_before[c] == #[trigger] self.elements()[b] by {
                                let y = self.elements()[b];
                                assert(self.elements().contains(y));
                                assert(self.elements().to_multiset().count(y) > 0);
                                assert(heap_before.to_multiset().count(y) > 0);
                                assert(heap_before.contains(y));
                            }
                            assert forall|a: int, b: int|
                                0 <= a < result@.len() && 0 <= b < self.elements().len() implies le(
                                #[trigger] result@[a],
                                #[trigger] self.elements()[b],
                            ) by {
                                let c = choose|c: int|
                                    0 <= c < heap_before.len() && heap_before[c] == self.elements()[b];
                                if a < result_before.len() {
                                    assert(result@[a] == result_before[a]);
                                    assert(le(result_before[a], heap_before[c]));
                                } else {
                                    assert(le(min, heap_before[c]));
                                }
                            }
                            assert forall|a: int, b: int| 0 <= a <= b < result@.len() implies le(
                                #[trigger] result@[a],
                                #[trigger] result@[b],
                            ) by {
                                if b < result_before.len() {
                                    assert(result@[a] == result_before[a]);
                                    assert(result@[b] == result_before[b]);
                                } else if a < result_before.len() {
                                    assert(result@[a] == result_before[a]);
                                    assert(le(result_before[a], heap_before[ix]));
                                }
                            }
                        }
                    }
                },
                None => {
                    break ;
                },
            }
            i += 1;
        }
        result
    }

    /// Moves the element at a place that holds the least of its subtree down until the
    /// elements below it are in order with it, and tells where it ends up.
    fn sift_down_min(&mut self, from: usize) -> (place: usize)
        requires
            from < old(self).elements().len(),
        ensures
            place < final(self).elements().len(),
            final(self).elements().to_multiset() == old(self).elements().to_multiset(),
            final(self).elements().len() == old(self).elements().len(),
            total_order::<T>() && holed(old(self).elements(), from as int) && !is_max(from as int)
                ==> holed(final(self).elements(), place as int) && down_ok(
                final(self).elements(),
                place as int,
            ),
            forall|i: int| 0 <= i < from ==> final(self).elements()[i] == old(self).elements()[i],
            from >= 1 && under_root(old(self).elements()) ==> under_root(final(self).elements()),
        decreases old(self).elements().len() - from,
    {
        let ghost good = total_order::<T>() && holed(self.elements(), from as int) && !is_max(
            from as int,
        );
        let mut current = from;
        loop
            invariant
                from <= current < self.elements().len(),
                forall|i: int| 0 <= i < from ==> self.elements()[i] == old(self).elements()[i],
                from >= 1 && under_root(old(self).elements()) ==> under_root(self.elements()),
                self.elements().to_multiset() == old(self).elements().to_multiset(),
                self.elements().len() == old(self).elements().len(),
                good == (total_order::<T>() && holed(old(self).elements(), from as int) && !is_max(
                    from as int,
                )),
                good ==> total_order::<T>() && holed(self.elements(), current as int) && !is_max(
                    current as int,
                ),
            decreases self.elements().len() - current,
        {
            let len = self.elements.len();
            let ghost e = self.elements();
            let left = self.child(current, 1);
            let right = self.child(current, 2);
            let mut smallest = current;
            proof {
                if good {
                    lemma_order::<T>();
                }
            }
            smallest = self.lesser(smallest, left);
            smallest = self.lesser(smallest, right);
            smallest = self.lesser(smallest, self.grandchild(left, 1));
            smallest = self.lesser(smallest, self.grandchild(left, 2));
            smallest = self.lesser(smallest, self.grandchild(right, 1));
            smallest = self.lesser(smallest, self.grandchild(right, 2));
            proof {
                if good {
                    assert(extreme(e, current as int, smallest as int)) by {
                        assert forall|d: int|
                            0 <= d < e.len() && ((d >= 1 && up1(d) == current) || (d >= 3 && up2(d)
                                == current)) implies #[trigger] dom(
                            is_max(current as int),
                            e[smallest as int],
                            e[d],
                        ) by {
                            if d >= 1 && up1(d) == current {
                                assert(d == 2 * current + 1 || d == 2 * current + 2);
                            } else {
                                assert(d == 4 * current + 3 || d == 4 * current + 4 || d == 4
                                    * current + 5 || d == 4 * current + 6);
                            }
                        }
                    }
                }
            }
            if smallest != current {
                swap(&mut self.elements, current, smallest);
                proof {
                    lemma_swap_multiset(e, current as int, smallest as int);
                    if from >= 1 && under_root(e) {
                        lemma_swap_under_root(e, current as int, smallest as int);
                    }
                    lemma_parities(smallest as int);
                    if good {
                        if is_max(smallest as int) {
                            assert(up1(smallest as int) == current);
                            lemma_down_child(e, current as int, smallest as int);
                        } else {
                            assert(up2(smallest as int) == current);
                            lemma_down_grandchild(e, current as int, smallest as int);
                        }
                    }
                }
                current = smallest;
                if Self::is_min_level(Self::level(current)) {
                    continue ;
                } else {
                    return self.sift_down_max(current);
                }
            } else {
                proof {
                    if good {
                        assert forall|d: int|
                            0 <= d < e.len() && ((d >= 1 && up1(d) == current) || (d >= 3 && up2(d)
                                == current)) implies #[trigger] rel(e, current as int, d) by {
                            assert(dom(is_max(current as int), e[smallest as int], e[d]));
                        }
                    }
                }
                return smallest;
            }
        }
    }

    /// Moves the element at a place that holds the greatest of its subtree down until the
    /// elements below it are in order with it, and tells where it ends up.
    fn sift_down_max(&mut self, from: usize) -> (place: usize)
        requires
            from < old(self).elements().len(),
        ensures
            place < final(self).elements().len(),
            final(self).elements().to_multiset() == old(self).elements().to_multiset(),
            final(self).elements().len() == old(self).elements().len(),
            total_order::<T>() && holed(old(self).elements(), from as int) && is_max(from as int)
                ==> holed(final(self).elements(), place as int) && down_ok(
                final(self).elements(),
                place as int,
            ),
            forall|i: int| 0 <= i < from ==> final(self).elements()[i] == old(self).elements()[i],
            from >= 1 && under_root(old(self).elements()) ==> under_root(final(self).elements()),
        decreases old(self).elements().len() - from,
    {
        let ghost good = total_order::<T>() && holed(self.elements(), from as int) && is_max(
            from as int,
        );
        let mut current = from;
        loop
            invariant
                from <= current < self.elements().len(),
                forall|i: int| 0 <= i < from ==> self.elements()[i] == old(self).elements()[i],
                from >= 1 && under_root(old(self).elements()) ==> under_root(self.elements()),
                self.elements().to_multiset() == old(self).elements().to_multiset(),
                self.elements().len() == old(self).elements().len(),
                good == (total_order::<T>() && holed(old(self).elements(), from as int) && is_max(
                    from as int,
                )),
                good ==> total_order::<T>() && holed(self.elements(), current as int) && is_max(
                    current as int,
                ),
            decreases self.elements().len() - current,
        {
            let len = self.elements.len();
            let ghost e = self.elements();
            let left = self.child(current, 1);
            let right = self.child(current, 2);
            let mut largest = current;
            proof {
                if good {
                    lemma_order::<T>();
                }
            }
            largest = self.greater(largest, left);
            largest = self.greater(largest, right);
            largest = self.greater(largest, self.grandchild(left, 1));
            largest = self.greater(largest, self.grandchild(left, 2));
            largest = self.greater(largest, self.grandchild(right, 1));
            largest = self.greater(largest, self.grandchild(right, 2));
            proof {
                if good {
                    assert(extreme(e, current as int, largest as int)) by {
                        assert forall|d: int|
                            0 <= d < e.len() && ((d >= 1 && up1(d) == current) || (d >= 3 && up2(d)
                                == current)) implies #[trigger] dom(
                            is_max(current as int),
                            e[largest as int],
                            e[d],
                        ) by {
                            if d >= 1 && up1(d) == current {
                                assert(d == 2 * current + 1 || d == 2 * current + 2);
                            } else {
                                assert(d == 4 * current + 3 || d == 4 * current + 4 || d == 4
                                    * current + 5 || d == 4 * current + 6);
                            }
                        }
                    }
                }
            }
            if largest != current {
                swap(&mut self.elements, current, largest);
                proof {
                    lemma_swap_multiset(e, current as int, largest as int);
                    if from >= 1 && under_root(e) {
                        lemma_swap_under_root(e, current as int, largest as int);
                    }
                    lemma_parities(largest as int);
                    if good {
                        if !is_max(largest as int) {
                            assert(up1(largest as int) == current);
                            lemma_down_child(e, current as int, largest as int);
                        } else {
                            assert(up2(largest as int) == current);
                            lemma_down_grandchild(e, current as int, largest as int);
                        }
                    }
                }
                current = largest;
                if Self::is_max_level(Self::level(current)) {
                    continue ;
                } else {
                    return self.sift_down_min(current);
                }
            } else {
                proof {
                    if good {
                        assert forall|d: int|
                            0 <= d < e.len() && ((d >= 1 && up1(d) == current) || (d >= 3 && up2(d)
                                == current)) implies #[trigger] rel(e, current as int, d) by {
                            assert(dom(is_max(current as int), e[largest as int], e[d]));
                        }
                    }
                }
                return largest;
            }
        }
    }
}

/// Taking an element out of a sequence by moving the last element into its place takes it
/// out of the multiset of the sequence.
pub proof fn lemma_swap_remove_multiset<T>(s: Seq<T>, i: int)
    requires
        0 <= i < s.len(),
    ensures
        s.update(i, s.last()).drop_last().to_multiset() == s.to_multiset().remove(s[i]),
        s.to_multiset().count(s[i]) > 0,
        s.contains(s[i]),
{
    let u = s.update(i, s.last());
    let last = s.len() - 1;
    lemma_update_multiset(s, i, s.last());
    u.to_multiset_ensures();
    s.to_multiset_ensures();
    assert(u.drop_last() =~= u.remove(last));
    assert(u[last] == s.last());
    assert(s.contains(s[i]) && s.contains(s.last())) by {
        assert(s[i] == s[i] && s[last] == s.last());
    }
    assert(u.remove(last).to_multiset() =~= s.to_multiset().remove(s[i]));
}

impl<T: Ord> Default for MinMaxHeap<T> {
    fn default() -> (heap: Self)
        ensures
            heap.elements() == Seq::<T>::empty(),
            heap.wf(),
    {
        MinMaxHeap::new()
    }
}

} // verus!
