//! The measure of what a collection of intervals covers, for scalars that
//! stand on the integers.

use crate::intervals::model::{
    all_well_formed, covered, is_canonical, is_merged, lemma_run_inherits,
};
use crate::intervals::Interval;
use crate::order::{is_total_order, le, lemma_total_order, lt};
use vstd::prelude::*;
use vstd::set_lib::{
    lemma_int_range, lemma_set_disjoint_lens, lemma_set_union_finite_iff, set_int_range,
};

verus! {

/// `scale` gives each value of `T` its place on the integers: places ascend
/// as the values do, and between the places of two values every integer is
/// the place of a value.
pub open spec fn is_scale<T: Ord>(scale: spec_fn(T) -> int) -> bool {
    &&& forall|a: T, b: T| #![trigger scale(a), scale(b)] le(a, b) <==> scale(a) <= scale(b)
    &&& forall|a: T, b: T, k: int|
        #![trigger scale(a), scale(b), has_place(scale, k)]
        scale(a) <= k <= scale(b) ==> has_place(scale, k)
}

/// `k` is the place of some value.
pub open spec fn has_place<T: Ord>(scale: spec_fn(T) -> int, k: int) -> bool {
    exists|x: T| #[trigger] scale(x) == k
}

/// The interval at `i` of `s` covers the place `k`.
pub open spec fn covers_place<T: Copy + Ord>(
    s: Seq<Interval<T>>,
    scale: spec_fn(T) -> int,
    i: int,
    k: int,
) -> bool {
    0 <= i < s.len() && scale(s[i].start) <= k < scale(s[i].end)
}

/// The places that the intervals of `s` cover.
pub open spec fn places<T: Copy + Ord>(s: Seq<Interval<T>>, scale: spec_fn(T) -> int) -> Set<int> {
    Set::new(|k: int| exists|i: int| #[trigger] covers_place(s, scale, i, k))
}

/// The lengths of the intervals of `s`, added up.
pub open spec fn total_length<T: Copy + Ord>(s: Seq<Interval<T>>, scale: spec_fn(T) -> int) -> int
    decreases s.len(),
{
    if s.len() == 0 {
        0
    } else {
        total_length(s.drop_last(), scale) + scale(s.last().end) - scale(s.last().start)
    }
}

/// Collections that cover the same points cover the same places.
pub proof fn lemma_same_points_same_places<T: Copy + Ord>(
    a: Seq<Interval<T>>,
    b: Seq<Interval<T>>,
    scale: spec_fn(T) -> int,
)
    requires
        is_total_order::<T>(),
        is_scale(scale),
        forall|x: T| #[trigger] covered(a, x) == covered(b, x),
    ensures
        places(a, scale) == places(b, scale),
{
    lemma_places_within(a, b, scale);
    lemma_places_within(b, a, scale);
    assert(places(a, scale) =~= places(b, scale));
}

/// The places that `a` covers are covered by every collection that covers
/// the points that `a` covers.
proof fn lemma_places_within<T: Copy + Ord>(
    a: Seq<Interval<T>>,
    b: Seq<Interval<T>>,
    scale: spec_fn(T) -> int,
)
    requires
        is_total_order::<T>(),
        is_scale(scale),
        forall|x: T| #[trigger] covered(a, x) == covered(b, x),
    ensures
        forall|k: int| places(a, scale).contains(k) ==> places(b, scale).contains(k),
{
    lemma_total_order::<T>();
    assert forall|k: int| places(a, scale).contains(k) implies places(b, scale).contains(k) by {
        let i = choose|i: int| #[trigger] covers_place(a, scale, i, k);
        assert(scale(a[i].start) <= k <= scale(a[i].end));
        assert(has_place(scale, k));
        let x = choose|x: T| #[trigger] scale(x) == k;
        assert(le(a[i].start, x) <==> scale(a[i].start) <= scale(x));
        assert(le(a[i].end, x) <==> scale(a[i].end) <= scale(x));
        assert(a[i].covers(x));
        assert(covered(a, x) == covered(b, x));
        let j = choose|j: int| 0 <= j < b.len() && (#[trigger] b[j]).covers(x);
        assert(le(b[j].start, x) <==> scale(b[j].start) <= scale(x));
        assert(le(b[j].end, x) <==> scale(b[j].end) <= scale(x));
        assert(covers_place(b, scale, j, k));
    }
}

/// A canonical collection of well-formed intervals covers as many places as
/// the lengths of its intervals add up to.
pub proof fn lemma_canonical_measure<T: Copy + Ord>(s: Seq<Interval<T>>, scale: spec_fn(T) -> int)
    requires
        is_total_order::<T>(),
        is_scale(scale),
        is_canonical(s),
        all_well_formed(s),
    ensures
        places(s, scale).finite(),
        places(s, scale).len() == total_length(s, scale),
    decreases s.len(),
{
    lemma_total_order::<T>();
    if s.len() == 0 {
        assert(places(s, scale) =~= Set::<int>::empty());
    } else {
        let rest = s.drop_last();
        let x = s.last();
        let n = s.len() - 1;
        lemma_run_inherits(s, 0, n);
        assert(rest == s.subrange(0, n));
        lemma_canonical_measure(rest, scale);
        let lo = scale(x.start);
        let hi = scale(x.end);
        assert(s[n].well_formed());
        assert(le(x.start, x.end) <==> lo <= hi);
        lemma_int_range(lo, hi);
        let last = set_int_range(lo, hi);
        let before = places(rest, scale);
        assert(places(s, scale) =~= before + last) by {
            assert forall|k: int| places(s, scale).contains(k) implies (before + last).contains(
                k,
            ) by {
                let i = choose|i: int| #[trigger] covers_place(s, scale, i, k);
                if i < n {
                    assert(covers_place(rest, scale, i, k));
                }
            }
            assert forall|k: int| (before + last).contains(k) implies places(s, scale).contains(
                k,
            ) by {
                if before.contains(k) {
                    let i = choose|i: int| #[trigger] covers_place(rest, scale, i, k);
                    assert(covers_place(s, scale, i, k));
                } else {
                    assert(covers_place(s, scale, n, k));
                }
            }
        }
        assert(before.disjoint(last)) by {
            assert forall|k: int| !(before.contains(k) && last.contains(k)) by {
                if before.contains(k) {
                    let i = choose|i: int| #[trigger] covers_place(rest, scale, i, k);
                    assert(lt(s[i].end, s[n].start));
                    assert(le(s[i].end, s[n].start) <==> scale(s[i].end) <= scale(s[n].start));
                }
            }
        }
        lemma_set_union_finite_iff(before, last);
        lemma_set_disjoint_lens(before, last);
    }
}

/// Merging loses no place and counts none twice: the lengths of the
/// intervals of a merged form add up to the number of places that the
/// collection it was made from covers.
pub proof fn lemma_merged_keeps_measure<T: Copy + Ord>(
    out: Seq<Interval<T>>,
    src: Seq<Interval<T>>,
    scale: spec_fn(T) -> int,
)
    requires
        is_total_order::<T>(),
        is_scale(scale),
        all_well_formed(src),
        is_merged(out, src),
    ensures
        places(src, scale).finite(),
        total_length(out, scale) == places(src, scale).len(),
{
    lemma_same_points_same_places(out, src, scale);
    lemma_canonical_measure(out, scale);
}

} // verus!
