//! Inserting one interval into a canonical collection.

use crate::intervals::merge_overlapping::sort_and_merge_overlapping;
use crate::intervals::model::{
    all_well_formed, covered, hull, is_canonical, is_merged, is_reach_of,
    lemma_canonical_ends_ascend, lemma_insert_by_splice, lemma_merged_of_same_points,
    lemma_points_push, same_points, spliced, touched,
};
use crate::intervals::Interval;
use crate::order::{at_most, below, is_total_order, larger, le, lemma_total_order, lt, smaller};
use vstd::prelude::*;

verus! {

/// Replaces `count` intervals of `v`, from `pos` on, by the one interval
/// `with`.
fn replace_run<T>(v: &mut Vec<Interval<T>>, pos: usize, count: usize, with: Interval<T>) where
    T: Copy + Ord,

    requires
        pos + count <= old(v)@.len(),
    ensures
        final(v)@ == spliced(old(v)@, pos as int, count as int, with),
{
    if count == 0 {
        v.insert(pos, with);
        proof {
            assert(v@ =~= spliced(old(v)@, pos as int, count as int, with));
        }
    } else {
        let n = v.len();
        let shift = count - 1;
        v[pos] = with;
        let mut from = pos + count;
        while from < n
            invariant
                n == v@.len(),
                n == old(v)@.len(),
                shift == count - 1,
                count > 0,
                pos + count <= from <= n,
                forall|i: int| 0 <= i < pos ==> #[trigger] v@[i] == old(v)@[i],
                v@[pos as int] == with,
                forall|i: int| pos < i < from - shift ==> #[trigger] v@[i] == old(v)@[i + shift],
                forall|i: int| from <= i < n ==> #[trigger] v@[i] == old(v)@[i],
            decreases n - from,
        {
            let moved = v[from];
            v[from - shift] = moved;
            from += 1;
        }
        v.truncate(n - shift);
        proof {
            assert(v@ =~= spliced(old(v)@, pos as int, count as int, with));
        }
    }
}

/// The index of the first interval of `v` that does not end before `x`, or
/// the length of `v` where all do; found by bisection.
fn first_reaching<T>(v: &Vec<Interval<T>>, x: &T) -> (pos: usize) where T: Copy + Ord
    ensures
        pos <= v@.len(),
        is_total_order::<T>() && is_canonical(v@) && all_well_formed(v@) ==> {
            &&& forall|i: int| 0 <= i < pos ==> lt((#[trigger] v@[i]).end, *x)
            &&& forall|i: int| pos <= i < v@.len() ==> le(*x, (#[trigger] v@[i]).end)
        },
{
    let ghost ordered = is_total_order::<T>() && is_canonical(v@) && all_well_formed(v@);
    let mut lo: usize = 0;
    let mut hi: usize = v.len();
    while lo < hi
        invariant
            lo <= hi <= v@.len(),
            ordered == (is_total_order::<T>() && is_canonical(v@) && all_well_formed(v@)),
            ordered ==> forall|i: int| 0 <= i < lo ==> lt((#[trigger] v@[i]).end, *x),
            ordered ==> forall|i: int| hi <= i < v@.len() ==> le(*x, (#[trigger] v@[i]).end),
        decreases hi - lo,
    {
        let mid = lo + (hi - lo) / 2;
        proof {
            if ordered {
                lemma_total_order::<T>();
                lemma_canonical_ends_ascend(v@);
            }
        }
        if below(&v[mid].end, x) {
            proof {
                if ordered {
                    assert forall|i: int|
                        0 <= i < mid + 1 implies lt((#[trigger] v@[i]).end, *x) by {
                        if i < mid {
                            assert(lt(v@[i].end, v@[mid as int].end));
                        }
                    }
                }
            }
            lo = mid + 1;
        } else {
            proof {
                if ordered {
                    assert forall|i: int| mid <= i < v@.len() implies le(
                        *x,
                        (#[trigger] v@[i]).end,
                    ) by {
                        if mid < i {
                            assert(lt(v@[mid as int].end, v@[i].end));
                        }
                    }
                }
            }
            hi = mid;
        }
    }
    lo
}

/// The index of the first interval of `v`, from `from` on, that starts after
/// `y`, or the length of `v` where none does; found by bisection.
fn first_beyond<T>(v: &Vec<Interval<T>>, from: usize, y: &T) -> (stop: usize) where T: Copy + Ord
    requires
        from <= v@.len(),
    ensures
        from <= stop <= v@.len(),
        is_total_order::<T>() && is_canonical(v@) && all_well_formed(v@) ==> {
            &&& forall|i: int| from <= i < stop ==> le((#[trigger] v@[i]).start, *y)
            &&& forall|i: int| stop <= i < v@.len() ==> lt(*y, (#[trigger] v@[i]).start)
        },
{
    let ghost ordered = is_total_order::<T>() && is_canonical(v@) && all_well_formed(v@);
    let mut lo: usize = from;
    let mut hi: usize = v.len();
    while lo < hi
        invariant
            from <= lo <= hi <= v@.len(),
            ordered == (is_total_order::<T>() && is_canonical(v@) && all_well_formed(v@)),
            ordered ==> forall|i: int| from <= i < lo ==> le((#[trigger] v@[i]).start, *y),
            ordered ==> forall|i: int| hi <= i < v@.len() ==> lt(*y, (#[trigger] v@[i]).start),
        decreases hi - lo,
    {
        let mid = lo + (hi - lo) / 2;
        proof {
            if ordered {
                lemma_total_order::<T>();
                lemma_canonical_ends_ascend(v@);
            }
        }
        if at_most(&v[mid].start, y) {
            proof {
                if ordered {
                    assert forall|i: int| from <= i < mid + 1 implies le(
                        (#[trigger] v@[i]).start,
                        *y,
                    ) by {
                        if i < mid {
                            assert(lt(v@[i].start, v@[mid as int].start));
                        }
                    }
                }
            }
            lo = mid + 1;
        } else {
            proof {
                if ordered {
                    assert forall|i: int| mid <= i < v@.len() implies lt(
                        *y,
                        (#[trigger] v@[i]).start,
                    ) by {
                        if mid < i {
                            assert(lt(v@[mid as int].start, v@[i].start));
                        }
                    }
                }
            }
            hi = mid;
        }
    }
    lo
}

/// `new` widened to the hull of the `count` intervals of `v` from `pos` on.
fn widened<T>(v: &Vec<Interval<T>>, new: Interval<T>, pos: usize, count: usize) -> (wide: Interval<
    T,
>) where T: Copy + Ord
    requires
        pos + count <= v@.len(),
    ensures
        is_total_order::<T>() ==> wide == hull(v@, new, pos as int, count as int),
{
    let n = v.len();
    if count > 0 && pos + count <= n {
        Interval {
            start: smaller(new.start, v[pos].start),
            end: larger(new.end, v[pos + count - 1].end),
        }
    } else {
        new
    }
}

/// `out` is `old` with `new` put in the place of the intervals that it
/// reaches, widened to their hull.
pub open spec fn is_insertion<T: Copy + Ord>(
    out: Seq<Interval<T>>,
    old: Seq<Interval<T>>,
    new: Interval<T>,
) -> bool {
    exists|pos: int, count: int|
        #[trigger] is_reach_of(old, new, pos, count) && out == spliced(
            old,
            pos,
            count,
            hull(old, new, pos, count),
        )
}

/// Inserts `new` into a canonical collection and merges it with the
/// intervals that it overlaps or touches, in place. The intervals concerned
/// are found by bisection.
///
/// On a canonical collection of well-formed intervals and a well-formed
/// `new`, the result is the merged form of the collection with `new` added.
pub fn insert_interval_and_merge_pre_sorted<T>(input: &mut Vec<Interval<T>>, new: Interval<T>) where
    T: Copy + Ord,

    ensures
        is_total_order::<T>() && is_canonical(old(input)@) && all_well_formed(old(input)@)
            && new.well_formed() ==> {
            &&& is_merged(final(input)@, old(input)@.push(new))
            &&& is_insertion(final(input)@, old(input)@, new)
        },
{
    let pos = first_reaching(input, &new.start);
    let stop = first_beyond(input, pos, &new.end);
    let count = stop - pos;
    let wide = widened(input, new, pos, count);
    proof {
        if is_total_order::<T>() && is_canonical(input@) && all_well_formed(input@)
            && new.well_formed() {
            lemma_total_order::<T>();
            assert(is_reach_of(input@, new, pos as int, count as int));
            lemma_insert_by_splice(input@, new, pos as int, count as int);
        }
    }
    replace_run(input, pos, count, wide);
}

/// Inserts `new` into a canonical collection and merges it with the
/// intervals that it overlaps or touches, in place. The intervals concerned
/// are found by a scan from the front.
///
/// Deprecated: [`insert_interval_and_merge_pre_sorted`] gives the same result
/// and finds the intervals by bisection. This function stays as the plain
/// statement of the insertion, to hold the other against.
///
/// On a canonical collection of well-formed intervals and a well-formed
/// `new`, the result is the merged form of the collection with `new` added.
pub fn insert_interval_and_merge_pre_sorted_linear<T>(
    intervals: &mut Vec<Interval<T>>,
    new: Interval<T>,
) where T: Copy + Ord
    ensures
        is_total_order::<T>() && is_canonical(old(intervals)@) && all_well_formed(old(intervals)@)
            && new.well_formed() ==> {
            &&& is_merged(final(intervals)@, old(intervals)@.push(new))
            &&& is_insertion(final(intervals)@, old(intervals)@, new)
        },
{
    let ghost ordered = is_total_order::<T>() && is_canonical(intervals@) && all_well_formed(
        intervals@,
    ) && new.well_formed();
    let n = intervals.len();
    let mut pos: usize = 0;
    while pos < n && below(&intervals[pos].end, &new.start)
        invariant
            n == intervals@.len(),
            pos <= n,
            is_total_order::<T>() ==> forall|i: int|
                0 <= i < pos ==> lt((#[trigger] intervals@[i]).end, new.start),
        decreases n - pos,
    {
        pos += 1;
    }
    let mut replace_count: usize = 0;
    while pos + replace_count < n && at_most(&intervals[pos + replace_count].start, &new.end)
        invariant
            n == intervals@.len(),
            pos + replace_count <= n,
            is_total_order::<T>() ==> forall|i: int|
                pos <= i < pos + replace_count ==> le((#[trigger] intervals@[i]).start, new.end),
        decreases n - pos - replace_count,
    {
        replace_count += 1;
    }
    let wide = widened(intervals, new, pos, replace_count);
    proof {
        if ordered {
            lemma_total_order::<T>();
            lemma_canonical_ends_ascend(intervals@);
            let s = intervals@;
            assert forall|i: int| pos <= i < pos + replace_count implies le(
                new.start,
                (#[trigger] s[i]).end,
            ) by {
                if pos < i {
                    assert(lt(s[pos as int].end, s[i].end));
                }
            }
            assert forall|i: int| pos + replace_count <= i < s.len() implies lt(
                new.end,
                (#[trigger] s[i]).start,
            ) by {
                if pos + replace_count < i {
                    assert(lt(s[pos + replace_count].start, s[i].start));
                }
            }
            assert(is_reach_of(s, new, pos as int, replace_count as int));
            lemma_insert_by_splice(s, new, pos as int, replace_count as int);
        }
    }
    replace_run(intervals, pos, replace_count, wide);
}

/// Brings a collection into canonical form, by sorting and merging it, and
/// inserts `interval` into it; all in place.
///
/// On well-formed intervals the result is the merged form of the collection
/// with `interval` added.
pub fn sort_and_insert_interval_and_merge<T>(
    vec: &mut Vec<Interval<T>>,
    interval: Interval<T>,
) where T: Copy + Ord
    ensures
        is_total_order::<T>() && all_well_formed(old(vec)@) && interval.well_formed() ==> is_merged(
            final(vec)@,
            old(vec)@.push(interval),
        ),
{
    sort_and_merge_overlapping(vec);
    let ghost merged = vec@;
    insert_interval_and_merge_pre_sorted(vec, interval);
    proof {
        if is_total_order::<T>() && all_well_formed(old(vec)@) && interval.well_formed() {
            lemma_raw_with_new(merged, old(vec)@, interval);
            lemma_merged_of_same_points(vec@, merged.push(interval), old(vec)@.push(interval));
        }
    }
}

/// As [`sort_and_insert_interval_and_merge`], with the insertion done by a
/// scan from the front.
///
/// Deprecated: [`sort_and_insert_interval_and_merge`] gives the same result.
pub fn sort_and_insert_interval_and_merge_linear<T>(
    vec: &mut Vec<Interval<T>>,
    interval: Interval<T>,
) where T: Copy + Ord
    ensures
        is_total_order::<T>() && all_well_formed(old(vec)@) && interval.well_formed() ==> is_merged(
            final(vec)@,
            old(vec)@.push(interval),
        ),
{
    sort_and_merge_overlapping(vec);
    let ghost merged = vec@;
    insert_interval_and_merge_pre_sorted_linear(vec, interval);
    proof {
        if is_total_order::<T>() && all_well_formed(old(vec)@) && interval.well_formed() {
            lemma_raw_with_new(merged, old(vec)@, interval);
            lemma_merged_of_same_points(vec@, merged.push(interval), old(vec)@.push(interval));
        }
    }
}

/// A merged form with an interval added has the points of what it is the
/// merged form of with that interval added.
proof fn lemma_raw_with_new<T: Copy + Ord>(
    merged: Seq<Interval<T>>,
    raw: Seq<Interval<T>>,
    new: Interval<T>,
)
    requires
        is_merged(merged, raw),
        all_well_formed(raw),
        new.well_formed(),
    ensures
        same_points(merged.push(new), raw.push(new)),
        all_well_formed(merged.push(new)),
        all_well_formed(raw.push(new)),
{
    lemma_points_push(merged, new);
    lemma_points_push(raw, new);
    let a = merged.push(new);
    let b = raw.push(new);
    assert forall|p: T| #[trigger] covered(a, p) == covered(b, p) by {
        assert(covered(merged, p) == covered(raw, p));
    }
    assert forall|p: T| #[trigger] touched(a, p) == touched(b, p) by {
        assert(touched(merged, p) == touched(raw, p));
    }
    assert forall|i: int| 0 <= i < a.len() implies (#[trigger] a[i]).well_formed() by {
        if i < merged.len() {
            assert(merged[i].well_formed());
        }
    }
    assert forall|i: int| 0 <= i < b.len() implies (#[trigger] b[i]).well_formed() by {
        if i < raw.len() {
            assert(raw[i].well_formed());
        }
    }
}

} // verus!
