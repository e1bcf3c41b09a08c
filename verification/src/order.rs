//! The order of the elements of a heap, as the comparison operators give it.
use vstd::prelude::*;
use vstd::laws_cmp::{
    obeys_cmp, obeys_cmp_ord, obeys_cmp_partial_ord, obeys_partial_cmp_spec_properties,
};
use vstd::laws_eq::obeys_eq_spec_properties;
use vstd::std_specs::cmp::{OrdSpec, PartialEqSpec, PartialOrdIs, PartialOrdSpec};

verus! {

/// The comparison operators of `T` give a total order, and say of all values what they say
/// of the same values in contracts.
pub open spec fn total_order<T: Ord>() -> bool {
    obeys_cmp::<T>()
}

/// `a` comes before `b`.
pub open spec fn lt<T: Ord>(a: T, b: T) -> bool {
    a.is_lt(&b)
}

/// `a` comes before `b` or is as great.
pub open spec fn le<T: Ord>(a: T, b: T) -> bool {
    a.is_le(&b)
}

/// The laws of a total order: any two values compare one way or the other, a value that is
/// no greater than a second, which is no greater than a third, is no greater than the
/// third, and a value comes before another exactly if the other is not as small.
pub proof fn lemma_order<T: Ord>()
    requires
        total_order::<T>(),
    ensures
        forall|a: T, b: T| #[trigger] le(a, b) || le(b, a),
        forall|a: T, b: T, c: T| #[trigger] le(a, b) && #[trigger] le(b, c) ==> le(a, c),
        forall|a: T| #[trigger] le(a, a),
        forall|a: T, b: T| #[trigger] lt(a, b) <==> !le(b, a),
        forall|a: T, b: T| #[trigger] lt(a, b) ==> le(a, b),
{
    reveal(obeys_cmp_partial_ord);
    reveal(obeys_cmp_ord);
    reveal(obeys_partial_cmp_spec_properties);
    reveal(obeys_eq_spec_properties);
    assert forall|a: T| #[trigger] le(a, a) by {
        assert(a.partial_cmp_spec(&a) == Some(a.cmp_spec(&a)));
        assert(a.partial_cmp_spec(&a) == Some(core::cmp::Ordering::Less) <==> a.partial_cmp_spec(
            &a,
        ) == Some(core::cmp::Ordering::Greater));
    }
    assert forall|a: T, b: T| #[trigger] lt(a, b) <==> !le(b, a) by {
        assert(a.partial_cmp_spec(&b) == Some(a.cmp_spec(&b)));
        assert(b.partial_cmp_spec(&a) == Some(b.cmp_spec(&a)));
        assert(a.partial_cmp_spec(&b) == Some(core::cmp::Ordering::Less) <==> b.partial_cmp_spec(
            &a,
        ) == Some(core::cmp::Ordering::Greater));
    }
    assert forall|a: T, b: T| #[trigger] le(a, b) || le(b, a) by {
        assert(a.partial_cmp_spec(&b) == Some(a.cmp_spec(&b)));
        assert(b.partial_cmp_spec(&a) == Some(b.cmp_spec(&a)));
        assert(b.partial_cmp_spec(&a) == Some(core::cmp::Ordering::Less) <==> a.partial_cmp_spec(
            &b,
        ) == Some(core::cmp::Ordering::Greater));
    }
    assert forall|a: T, b: T, c: T| #[trigger] le(a, b) && #[trigger] le(b, c) implies le(
        a,
        c,
    ) by {
        assert(a.partial_cmp_spec(&b) == Some(a.cmp_spec(&b)));
        assert(b.partial_cmp_spec(&c) == Some(b.cmp_spec(&c)));
        assert(a.partial_cmp_spec(&c) == Some(a.cmp_spec(&c)));
        assert(c.partial_cmp_spec(&a) == Some(c.cmp_spec(&a)));
        assert(c.partial_cmp_spec(&b) == Some(c.cmp_spec(&b)));
        assert(b.partial_cmp_spec(&a) == Some(b.cmp_spec(&a)));
        // Were `a` greater than `c`, then `c` would come before `a`.
        if a.partial_cmp_spec(&c) == Some(core::cmp::Ordering::Greater) {
            assert(c.partial_cmp_spec(&a) == Some(core::cmp::Ordering::Less));
            if a.partial_cmp_spec(&b) == Some(core::cmp::Ordering::Less) {
                assert(c.partial_cmp_spec(&b) == Some(core::cmp::Ordering::Less));
                assert(b.partial_cmp_spec(&c) == Some(core::cmp::Ordering::Greater));
            } else {
                assert(a.eq_spec(&b));
                if b.partial_cmp_spec(&c) == Some(core::cmp::Ordering::Less) {
                    assert(b.partial_cmp_spec(&a) == Some(core::cmp::Ordering::Less));
                    assert(a.partial_cmp_spec(&b) == Some(core::cmp::Ordering::Greater));
                } else {
                    assert(b.eq_spec(&c));
                    assert(a.eq_spec(&c));
                }
            }
        }
    }
}

/// Whether `a` comes before `b`.
pub fn less<T: Ord>(a: &T, b: &T) -> (r: bool)
    ensures
        total_order::<T>() ==> r == lt(*a, *b),
{
    proof {
        reveal(obeys_cmp_partial_ord);
    }
    *a < *b
}

/// Whether `a` comes before `b` or is as great.
pub fn less_eq<T: Ord>(a: &T, b: &T) -> (r: bool)
    ensures
        total_order::<T>() ==> r == le(*a, *b),
{
    proof {
        reveal(obeys_cmp_partial_ord);
    }
    *a <= *b
}

} // verus!

verus! {

/// Whether `a` comes after `b`.
pub fn greater<T: Ord>(a: &T, b: &T) -> (r: bool)
    ensures
        total_order::<T>() ==> r == lt(*b, *a),
{
    proof {
        reveal(obeys_cmp_partial_ord);
        reveal(obeys_cmp_ord);
        reveal(obeys_partial_cmp_spec_properties);
    }
    *a > *b
}

} // verus!
