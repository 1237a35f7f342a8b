//! The lengths of the intervals of a collection, and the gaps between them.

use crate::intervals::model::{
    all_well_formed, covered, is_canonical, is_disjoint, lemma_canonical_ends_ascend,
    sorted_by_start,
};
use crate::intervals::Interval;
use crate::order::{is_total_order, le, lemma_total_order, lt};
use core::ops::Sub;
use vstd::prelude::*;
use vstd::std_specs::ops::SubSpec;

verus! {

/// The gap after the interval of `s` at `i`: from its end to the start of
/// the next interval.
pub open spec fn gap_after<T: Copy + Ord>(s: Seq<Interval<T>>, i: int) -> Interval<T> {
    Interval { start: s[i].end, end: s[i + 1].start }
}

/// The gaps between the intervals of `s`, in order: one after each interval
/// but the last.
pub open spec fn gaps_of<T: Copy + Ord>(s: Seq<Interval<T>>) -> Seq<Interval<T>> {
    if s.len() == 0 {
        Seq::empty()
    } else {
        Seq::new((s.len() - 1) as nat, |i: int| gap_after(s, i))
    }
}

/// Every interval of `s` but the first and the last has some extent.
pub open spec fn inner_have_extent<T: Copy + Ord>(s: Seq<Interval<T>>) -> bool {
    forall|i: int| 0 < i < s.len() - 1 ==> lt((#[trigger] s[i]).start, s[i].end)
}

/// `p` lies between the intervals of `s`: not before the first of them has
/// ended, before the last of them starts, and in none of them.
pub open spec fn lies_between<T: Copy + Ord>(s: Seq<Interval<T>>, p: T) -> bool {
    s.len() > 0 && le(s[0].end, p) && lt(p, s.last().start) && !covered(s, p)
}

/// The gaps of a canonical collection of well-formed intervals have extent
/// and do not overlap, and they cover the points that lie between the
/// intervals of the collection, and no others. They are canonical where the
/// intervals between the first and the last have extent: around an interval
/// without extent two gaps touch.
pub proof fn lemma_gaps<T: Copy + Ord>(s: Seq<Interval<T>>)
    requires
        is_total_order::<T>(),
        is_canonical(s),
        all_well_formed(s),
    ensures
        is_disjoint(gaps_of(s)),
        sorted_by_start(gaps_of(s)),
        forall|p: T| #[trigger] covered(gaps_of(s), p) == lies_between(s, p),
        inner_have_extent(s) ==> is_canonical(gaps_of(s)),
{
    lemma_total_order::<T>();
    lemma_canonical_ends_ascend(s);
    let g = gaps_of(s);
    let n = s.len() as int;
    assert forall|i: int| 0 <= i < g.len() implies lt((#[trigger] g[i]).start, g[i].end) by {
        assert(lt(s[i].end, s[i + 1].start));
    }
    assert forall|i: int, j: int| #![trigger g[i], g[j]] 0 <= i < j < g.len() implies le(
        g[i].end,
        g[j].start,
    ) && le(g[i].start, g[j].start) by {
        assert(s[j].well_formed());
        assert(s[i + 1].well_formed());
        if i + 1 < j {
            assert(lt(s[i + 1].start, s[j].start));
        }
        assert(lt(s[i].end, s[j].end));
    }
    assert forall|i: int, j: int| #![trigger g[i], g[j]] 0 <= i <= j < g.len() implies le(
        g[i].start,
        g[j].start,
    ) by {
        if i < j {
            assert(le(g[i].end, g[j].start) && le(g[i].start, g[j].start));
        }
    }
    if inner_have_extent(s) {
        assert forall|i: int, j: int| #![trigger g[i], g[j]] 0 <= i < j < g.len() implies lt(
            g[i].end,
            g[j].start,
        ) by {
            assert(lt(s[i + 1].start, s[i + 1].end));
            if i + 1 < j {
                assert(lt(s[i + 1].end, s[j].end));
            }
        }
    }
    assert forall|p: T| #[trigger] covered(g, p) == lies_between(s, p) by {
        if covered(g, p) {
            let i = choose|i: int| 0 <= i < g.len() && (#[trigger] g[i]).covers(p);
            if 0 < i {
                assert(lt(s[0].end, s[i].end));
            }
            if i + 1 < n - 1 {
                assert(lt(s[i + 1].start, s[n - 1].start));
            }
            if covered(s, p) {
                let j = choose|j: int| 0 <= j < s.len() && (#[trigger] s[j]).covers(p);
                if j < i {
                    assert(lt(s[j].end, s[i].end));
                } else if j > i + 1 {
                    assert(lt(s[i + 1].start, s[j].start));
                }
            }
        }
        if lies_between(s, p) {
            lemma_gap_holds(s, p, 0);
        }
    }
}

/// A point that lies between the intervals of a canonical collection, and
/// not before the interval at `from` has ended, lies in a gap.
proof fn lemma_gap_holds<T: Copy + Ord>(s: Seq<Interval<T>>, p: T, from: int)
    requires
        is_total_order::<T>(),
        is_canonical(s),
        all_well_formed(s),
        lies_between(s, p),
        0 <= from < s.len(),
        le(s[from].end, p),
    ensures
        covered(gaps_of(s), p),
    decreases s.len() - from,
{
    lemma_total_order::<T>();
    let g = gaps_of(s);
    if from == s.len() - 1 {
        assert(s[from].well_formed());
    } else if lt(p, s[from + 1].start) {
        assert(g[from] == gap_after(s, from));
        assert(g[from].covers(p));
    } else {
        assert(!s[from + 1].covers(p));
        lemma_gap_holds(s, p, from + 1);
    }
}

/// The length of each interval of a collection, in order.
pub fn get_length_of_each_interval<T>(intervals: &Vec<Interval<T>>) -> (lengths: Vec<T>) where
    T: Copy + Ord + Sub<Output = T>,

    requires
        forall|i: int| 0 <= i < intervals@.len() ==> (#[trigger] intervals@[i]).measurable(),
    ensures
        lengths@.len() == intervals@.len(),
        T::obeys_sub_spec() ==> forall|i: int|
            0 <= i < intervals@.len() ==> #[trigger] lengths@[i] == intervals@[i].extent(),
{
    let mut lengths: Vec<T> = Vec::new();
    let mut i: usize = 0;
    while i < intervals.len()
        invariant
            i <= intervals@.len(),
            lengths@.len() == i,
            forall|k: int| 0 <= k < intervals@.len() ==> (#[trigger] intervals@[k]).measurable(),
            T::obeys_sub_spec() ==> forall|k: int|
                0 <= k < i ==> #[trigger] lengths@[k] == intervals@[k].extent(),
        decreases intervals@.len() - i,
    {
        let interval = intervals[i];
        lengths.push(interval.length());
        i += 1;
    }
    lengths
}

/// The gaps between the intervals of a collection: for each interval but the
/// last, the interval from its end to the start of the next. A collection of
/// one interval or of none has no gaps.
pub fn get_gaps_intervals<T>(intervals: &Vec<Interval<T>>) -> (gaps: Vec<Interval<T>>) where
    T: Copy + Ord,

    ensures
        gaps@ == gaps_of(intervals@),
        is_total_order::<T>() && is_canonical(intervals@) && all_well_formed(intervals@) ==> {
            &&& is_disjoint(gaps@)
            &&& sorted_by_start(gaps@)
            &&& forall|p: T| #[trigger] covered(gaps@, p) == lies_between(intervals@, p)
            &&& inner_have_extent(intervals@) ==> is_canonical(gaps@)
        },
{
    proof {
        if is_total_order::<T>() && is_canonical(intervals@) && all_well_formed(intervals@) {
            lemma_gaps(intervals@);
        }
    }
    if intervals.is_empty() {
        return Vec::new();
    }
    let last = intervals.len() - 1;
    let mut output: Vec<Interval<T>> = Vec::with_capacity(last);
    let mut i: usize = 0;
    while i < last
        invariant
            last == intervals@.len() - 1,
            i <= last,
            output@.len() == i,
            forall|k: int| 0 <= k < i ==> #[trigger] output@[k] == gap_after(intervals@, k),
        decreases last - i,
    {
        output.push(Interval { start: intervals[i].end, end: intervals[i + 1].start });
        i += 1;
    }
    proof {
        assert(output@ =~= gaps_of(intervals@));
    }
    output
}

} // verus!
