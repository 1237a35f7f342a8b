//! Binary search for a value, or for what a comparison singles out.

use crate::order::{below, is_total_order, le, lemma_total_order, lt};
use crate::search::{
    bisect, bisect_all, bisect_between, lemma_bisect_all_complete, lemma_bisect_complete,
    partitioned, partitioned_all, position,
};
use core::cmp::Ordering;
use vstd::prelude::*;

verus! {

/// The values of `s` ascend.
pub open spec fn is_sorted<T: Ord>(s: Seq<T>) -> bool {
    forall|i: int, j: int| #![trigger s[i], s[j]] 0 <= i <= j < s.len() ==> le(s[i], s[j])
}

/// Searches `slice` for `target` by bisection: it compares the value in the
/// middle of what is left (the lower one of two) with `target` and goes on
/// in the half in which `target` can still be.
///
/// The result is a position at which `target` stands. In a sorted slice
/// there is a result wherever `target` occurs; of several occurrences it is
/// the one that the bisection meets first.
pub fn binary_search<T>(slice: &[T], target: &T) -> (found: Option<usize>) where T: Ord
    ensures
        found matches Some(i) ==> i < slice@.len(),
        is_total_order::<T>() ==> position(found) == bisect_all(
            |i: int| lt(slice@[i], *target),
            |i: int| lt(*target, slice@[i]),
            slice@.len(),
        ),
        is_total_order::<T>() ==> (found matches Some(i) ==> slice@[i as int] == *target),
        is_total_order::<T>() && is_sorted(slice@) ==> (found is Some <==> slice@.contains(
            *target,
        )),
{
    let ghost too_small = |i: int| lt(slice@[i], *target);
    let ghost too_large = |i: int| lt(*target, slice@[i]);
    let ghost len = slice@.len() as int;
    let mut left: usize = 0;
    let mut right: usize = slice.len();
    proof {
        if is_total_order::<T>() {
            lemma_total_order::<T>();
            if is_sorted(slice@) {
                lemma_sorted_is_partitioned(slice@, *target);
            }
        }
    }
    while left < right
        invariant
            left <= right <= slice@.len(),
            len == slice@.len(),
            too_small == (|i: int| lt(slice@[i], *target)),
            too_large == (|i: int| lt(*target, slice@[i])),
            is_total_order::<T>() ==> bisect(too_small, too_large, 0, len) == bisect(
                too_small,
                too_large,
                left as int,
                right as int,
            ),
        decreases right - left,
    {
        let middle = left + (right - 1 - left) / 2;
        if below(&slice[middle], target) {
            left = middle + 1;
        } else if below(target, &slice[middle]) {
            right = middle;
        } else {
            proof {
                if is_total_order::<T>() {
                    lemma_total_order::<T>();
                    assert(!too_small(middle as int) && !too_large(middle as int));
                    if is_sorted(slice@) {
                        assert(slice@[middle as int] == *target);
                    }
                }
            }
            return Some(middle);
        }
    }
    proof {
        if is_total_order::<T>() && is_sorted(slice@) {
            lemma_total_order::<T>();
            lemma_sorted_is_partitioned(slice@, *target);
            if slice@.contains(*target) {
                let k = choose|k: int| 0 <= k < slice@.len() && slice@[k] == *target;
                lemma_bisect_complete(too_small, too_large, 0, len, k);
            }
        }
    }
    None
}

/// Comparison with a target partitions the positions of a sorted sequence.
proof fn lemma_sorted_is_partitioned<T: Ord>(s: Seq<T>, target: T)
    requires
        is_total_order::<T>(),
        is_sorted(s),
    ensures
        partitioned(|i: int| lt(s[i], target), |i: int| lt(target, s[i]), 0, s.len() as int),
{
    lemma_total_order::<T>();
    let too_small = |i: int| lt(s[i], target);
    let too_large = |i: int| lt(target, s[i]);
    assert forall|i: int, j: int|
        0 <= i <= j < s.len() && #[trigger] too_small(j) implies #[trigger] too_small(i) by {
        assert(le(s[i], s[j]));
    }
    assert forall|i: int, j: int|
        0 <= i <= j < s.len() && #[trigger] too_large(i) implies #[trigger] too_large(j) by {
        assert(le(s[i], s[j]));
    }
}

/// What `f` answers is fixed for every value of `s`: it cannot answer two
/// different things of one value.
pub open spec fn decides<T, F: Fn(&T) -> Ordering>(f: F, s: Seq<T>) -> bool {
    forall|i: int, one: Ordering, other: Ordering|
        #![trigger call_ensures(f, (&s[i],), one), call_ensures(f, (&s[i],), other)]
        0 <= i < s.len() && call_ensures(f, (&s[i],), one) && call_ensures(f, (&s[i],), other)
            ==> one == other
}

/// Searches `slice` by bisection for a value of which `f` answers `Equal`:
/// it asks `f` of the value in the middle of what is left (the lower one of
/// two) and goes on above it on `Less` and below it on `Greater`.
///
/// The result is a position of whose value `f` has answered `Equal`. Where
/// the answers of `f` are fixed, it is the position at which the bisection
/// ends; where they also divide the slice into values that are less, then
/// values that are equal, then values that are greater, there is a result
/// wherever `f` answers `Equal` of some value.
pub fn binary_search_with<T, F>(slice: &[T], f: F) -> (found: Option<usize>) where
    T: Ord,
    F: Fn(&T) -> Ordering,

    requires
        forall|i: int| 0 <= i < slice@.len() ==> call_requires(f, (&slice@[i],)),
    ensures
        position(found) matches Some(k) ==> 0 <= k < slice@.len() && call_ensures(
            f,
            (&slice@[k],),
            Ordering::Equal,
        ),
        decides(f, slice@) ==> position(found) == bisect_all(
            |i: int| call_ensures(f, (&slice@[i],), Ordering::Less),
            |i: int| call_ensures(f, (&slice@[i],), Ordering::Greater),
            slice@.len(),
        ),
        decides(f, slice@) && partitioned_all(
            |i: int| call_ensures(f, (&slice@[i],), Ordering::Less),
            |i: int| call_ensures(f, (&slice@[i],), Ordering::Greater),
            slice@.len(),
        ) ==> (found is None ==> forall|i: int|
            0 <= i < slice@.len() ==> !call_ensures(f, (&slice@[i],), Ordering::Equal)),
{
    let ghost too_small = |i: int| call_ensures(f, (&slice@[i],), Ordering::Less);
    let ghost too_large = |i: int| call_ensures(f, (&slice@[i],), Ordering::Greater);
    let mut left: usize = 0;
    let mut right: usize = slice.len();
    while left < right
        invariant
            left <= right <= slice@.len(),
            forall|i: int| 0 <= i < slice@.len() ==> call_requires(f, (&slice@[i],)),
            too_small == (|i: int| call_ensures(f, (&slice@[i],), Ordering::Less)),
            too_large == (|i: int| call_ensures(f, (&slice@[i],), Ordering::Greater)),
            decides(f, slice@) ==> bisect_all(too_small, too_large, slice@.len()) == bisect_between(
                too_small,
                too_large,
                left,
                right,
            ),
        decreases right - left,
    {
        let middle = left + (right - 1 - left) / 2;
        match f(&slice[middle]) {
            Ordering::Less => {
                left = middle + 1;
            },
            Ordering::Greater => {
                right = middle;
            },
            Ordering::Equal => {
                return Some(middle);
            },
        }
    }
    proof {
        if decides(f, slice@) && partitioned_all(too_small, too_large, slice@.len()) {
            assert forall|i: int| 0 <= i < slice@.len() implies !call_ensures(
                f,
                (&slice@[i],),
                Ordering::Equal,
            ) by {
                if call_ensures(f, (&slice@[i],), Ordering::Equal) {
                    lemma_found_where_equal(f, slice@, i);
                }
            }
        }
    }
    None
}

/// Where the answers of `f` are fixed and divide `s` into three runs, a
/// bisection finds a position wherever `f` answers `Equal` of some value.
proof fn lemma_found_where_equal<T, F: Fn(&T) -> Ordering>(f: F, s: Seq<T>, k: int)
    requires
        decides(f, s),
        partitioned_all(
            |i: int| call_ensures(f, (&s[i],), Ordering::Less),
            |i: int| call_ensures(f, (&s[i],), Ordering::Greater),
            s.len(),
        ),
        0 <= k < s.len(),
        call_ensures(f, (&s[k],), Ordering::Equal),
    ensures
        bisect_all(
            |i: int| call_ensures(f, (&s[i],), Ordering::Less),
            |i: int| call_ensures(f, (&s[i],), Ordering::Greater),
            s.len(),
        ) is Some,
{
    let too_small = |i: int| call_ensures(f, (&s[i],), Ordering::Less);
    let too_large = |i: int| call_ensures(f, (&s[i],), Ordering::Greater);
    assert(!too_small(k));
    assert(!too_large(k));
    lemma_bisect_all_complete(too_small, too_large, s.len(), k);
}

} // verus!
