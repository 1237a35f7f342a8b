//! The vocabulary in which the contracts of this crate speak of order.

use core::cmp::Ordering;
use vstd::laws_cmp::obeys_cmp;
use vstd::laws_eq::obeys_concrete_eq;
use vstd::prelude::*;
use vstd::std_specs::cmp::{OrdSpec, PartialEqSpec, PartialOrdSpec};

verus! {

/// The comparison operators of `T` describe a total order on its values:
/// they agree with each other, are transitive and total, and two values that
/// compare equal are the same value.
pub open spec fn is_total_order<T: Ord>() -> bool {
    obeys_cmp::<T>() && obeys_concrete_eq::<T>()
}

/// `a` is at most `b`.
pub open spec fn le<T: Ord>(a: T, b: T) -> bool {
    a.cmp_spec(&b) != Ordering::Greater
}

/// `a` is strictly below `b`.
#[verifier::inline]
pub open spec fn lt<T: Ord>(a: T, b: T) -> bool {
    !le(b, a)
}

/// The larger of two values; `b` where they are equal.
pub open spec fn max_of<T: Ord>(a: T, b: T) -> T {
    if le(a, b) {
        b
    } else {
        a
    }
}

/// The smaller of two values; `a` where they are equal.
pub open spec fn min_of<T: Ord>(a: T, b: T) -> T {
    if le(a, b) {
        a
    } else {
        b
    }
}

/// What the operators `<`, `<=` and `==` of `T` compute, in terms of [`le`].
pub open spec fn operators_follow_le<T: Ord>() -> bool {
    &&& T::obeys_partial_cmp_spec()
    &&& T::obeys_cmp_spec()
    &&& T::obeys_eq_spec()
    &&& forall|a: T, b: T| #[trigger] a.partial_cmp_spec(&b) == Some(a.cmp_spec(&b))
    &&& forall|a: T, b: T| #[trigger] a.cmp_spec(&b) == Ordering::Less <==> lt(a, b)
    &&& forall|a: T, b: T| #[trigger] a.cmp_spec(&b) == Ordering::Equal <==> a == b
    &&& forall|a: T, b: T| #[trigger] a.eq_spec(&b) <==> a == b
}

/// The laws of a total order, for [`le`].
pub proof fn lemma_total_order<T: Ord>()
    requires
        is_total_order::<T>(),
    ensures
        forall|a: T| #[trigger] le(a, a),
        forall|a: T, b: T| #[trigger] le(a, b) || le(b, a),
        forall|a: T, b: T| #[trigger] le(a, b) && le(b, a) ==> a == b,
        forall|a: T, b: T, c: T| #[trigger] le(a, b) && #[trigger] le(b, c) ==> le(a, c),
        operators_follow_le::<T>(),
{
    reveal(vstd::laws_cmp::obeys_cmp_ord);
    reveal(vstd::laws_cmp::obeys_cmp_partial_ord);
    reveal(vstd::laws_cmp::obeys_partial_cmp_spec_properties);
    reveal(vstd::laws_eq::obeys_concrete_eq);
    reveal(vstd::laws_eq::obeys_eq_spec_properties);
    assert forall|a: T, b: T| #[trigger] a.partial_cmp_spec(&b) == Some(a.cmp_spec(&b)) by {}
    assert forall|a: T| #[trigger] le(a, a) by {
        assert(a.eq_spec(&a));
        assert(a.partial_cmp_spec(&a) == Some(a.cmp_spec(&a)));
    }
    assert forall|a: T, b: T| #[trigger] le(a, b) || le(b, a) by {
        assert(a.partial_cmp_spec(&b) == Some(a.cmp_spec(&b)));
        assert(b.partial_cmp_spec(&a) == Some(b.cmp_spec(&a)));
    }
    assert forall|a: T, b: T| #[trigger] le(a, b) && le(b, a) implies a == b by {
        assert(a.partial_cmp_spec(&b) == Some(a.cmp_spec(&b)));
        assert(b.partial_cmp_spec(&a) == Some(b.cmp_spec(&a)));
        assert(a.eq_spec(&b));
    }
    assert forall|a: T, b: T| #[trigger] a.cmp_spec(&b) == Ordering::Equal <==> a == b by {
        assert(a.partial_cmp_spec(&b) == Some(a.cmp_spec(&b)));
        assert(a.eq_spec(&b) <==> a == b);
    }
    assert forall|a: T, b: T| #[trigger] a.cmp_spec(&b) == Ordering::Less <==> lt(a, b) by {
        assert(a.partial_cmp_spec(&b) == Some(a.cmp_spec(&b)));
        assert(b.partial_cmp_spec(&a) == Some(b.cmp_spec(&a)));
    }
    assert forall|a: T, b: T, c: T| #[trigger] le(a, b) && #[trigger] le(b, c) implies le(
        a,
        c,
    ) by {
        assert(a.partial_cmp_spec(&b) == Some(a.cmp_spec(&b)));
        assert(b.partial_cmp_spec(&c) == Some(b.cmp_spec(&c)));
        assert(a.partial_cmp_spec(&c) == Some(a.cmp_spec(&c)));
        assert(c.partial_cmp_spec(&a) == Some(c.cmp_spec(&a)));
        assert(a.cmp_spec(&b) == Ordering::Equal <==> a == b);
        assert(b.cmp_spec(&c) == Ordering::Equal <==> b == c);
        if a != b && b != c {
            assert(a.partial_cmp_spec(&b) == Some(Ordering::Less));
            assert(b.partial_cmp_spec(&c) == Some(Ordering::Less));
            assert(a.partial_cmp_spec(&c) == Some(Ordering::Less));
        }
    }
}

/// The integer types of Rust are totally ordered by their operators.
pub proof fn lemma_integers_are_totally_ordered()
    ensures
        is_total_order::<u8>(),
        is_total_order::<u16>(),
        is_total_order::<u32>(),
        is_total_order::<u64>(),
        is_total_order::<u128>(),
        is_total_order::<usize>(),
        is_total_order::<i8>(),
        is_total_order::<i16>(),
        is_total_order::<i32>(),
        is_total_order::<i64>(),
        is_total_order::<i128>(),
        is_total_order::<isize>(),
{
    broadcast use vstd::laws_cmp::group_laws_cmp;
    broadcast use vstd::laws_eq::group_laws_eq;

}

/// Pairs of a value of a totally ordered type and an index are totally
/// ordered, and a pair that is at most another has a first part that is at
/// most the first part of the other.
pub proof fn lemma_pair_total_order<T: Ord>()
    requires
        is_total_order::<T>(),
    ensures
        is_total_order::<(T, usize)>(),
        forall|a: (T, usize), b: (T, usize)| #[trigger] le(a, b) ==> le(a.0, b.0),
{
    broadcast use vstd::laws_cmp::group_laws_cmp;
    broadcast use vstd::laws_eq::group_laws_eq;

    assert(obeys_cmp::<usize>());
    assert(obeys_concrete_eq::<usize>());
    assert(obeys_cmp::<(T, usize)>());
    assert(obeys_concrete_eq::<(T, usize)>());
}

/// Whether `a` is at most `b`, by the operator `<=` of `T`.
pub fn at_most<T: Ord>(a: &T, b: &T) -> (r: bool)
    ensures
        is_total_order::<T>() ==> r == le(*a, *b),
{
    proof {
        if is_total_order::<T>() {
            lemma_total_order::<T>();
        }
    }
    *a <= *b
}

/// Whether `a` is strictly below `b`, by the operator `<` of `T`.
pub fn below<T: Ord>(a: &T, b: &T) -> (r: bool)
    ensures
        is_total_order::<T>() ==> r == lt(*a, *b),
{
    proof {
        if is_total_order::<T>() {
            lemma_total_order::<T>();
        }
    }
    *a < *b
}

/// The larger of two values.
pub fn larger<T: Ord + Copy>(a: T, b: T) -> (r: T)
    ensures
        r == a || r == b,
        is_total_order::<T>() ==> r == max_of(a, b),
{
    if at_most(&a, &b) {
        b
    } else {
        a
    }
}

/// The smaller of two values.
pub fn smaller<T: Ord + Copy>(a: T, b: T) -> (r: T)
    ensures
        r == a || r == b,
        is_total_order::<T>() ==> r == min_of(a, b),
{
    if at_most(&a, &b) {
        a
    } else {
        b
    }
}

} // verus!
