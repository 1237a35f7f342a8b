//! Sorting a collection of intervals.

use crate::intervals::model::sorted_by_start;
use crate::intervals::Interval;
use crate::order::{at_most, below, is_total_order, le, lemma_total_order, lt};
use vstd::prelude::*;
use vstd::relations::{sorted_by, total_ordering};
use vstd::seq_lib::{lemma_multiset_commutative, lemma_sorted_unique, to_multiset_build};

verus! {

/// `a` comes no later than `b` where intervals are ordered by start and,
/// among equal starts, by end.
pub open spec fn start_then_end_le<T: Copy + Ord>(a: Interval<T>, b: Interval<T>) -> bool {
    lt(a.start, b.start) || (a.start == b.start && le(a.end, b.end))
}

/// The intervals of `s` ascend by start and, among equal starts, by end.
pub open spec fn ascending_by_start_then_end<T: Copy + Ord>(s: Seq<Interval<T>>) -> bool {
    forall|i: int, j: int|
        #![trigger s[i], s[j]]
        0 <= i <= j < s.len() ==> start_then_end_le(s[i], s[j])
}

/// The ends of `s` ascend.
pub open spec fn ascending_by_end<T: Copy + Ord>(s: Seq<Interval<T>>) -> bool {
    forall|i: int, j: int| #![trigger s[i], s[j]] 0 <= i <= j < s.len() ==> le(s[i].end, s[j].end)
}

/// A collection that ascends by start and then by end is sorted by start.
pub proof fn lemma_ascending_is_sorted_by_start<T: Copy + Ord>(s: Seq<Interval<T>>)
    requires
        is_total_order::<T>(),
        ascending_by_start_then_end(s),
    ensures
        sorted_by_start(s),
{
    lemma_total_order::<T>();
    assert forall|i: int, j: int| #![trigger s[i], s[j]] 0 <= i <= j < s.len() implies le(
        s[i].start,
        s[j].start,
    ) by {
        assert(start_then_end_le(s[i], s[j]));
    }
}

/// Whether an interval ends at `e`.
pub open spec fn ends_at<T: Copy + Ord>(e: T) -> spec_fn(Interval<T>) -> bool {
    |x: Interval<T>| x.end == e
}

/// The intervals of `s` that end at `e`, in the order in which `s` holds
/// them.
pub open spec fn ending_at<T: Copy + Ord>(s: Seq<Interval<T>>, e: T) -> Seq<Interval<T>> {
    s.filter(ends_at(e))
}

/// The intervals of `s` in ascending order of start and, among equal starts,
/// of end.
pub open spec fn in_start_order<T: Copy + Ord>(s: Seq<Interval<T>>) -> Seq<Interval<T>> {
    s.sort_by(|a: Interval<T>, b: Interval<T>| start_then_end_le(a, b))
}

/// There is one way to put intervals in ascending order of start and end.
pub proof fn lemma_start_order_is_unique<T: Copy + Ord>(
    sorted: Seq<Interval<T>>,
    raw: Seq<Interval<T>>,
)
    requires
        is_total_order::<T>(),
        sorted.to_multiset() == raw.to_multiset(),
        ascending_by_start_then_end(sorted),
    ensures
        sorted == in_start_order(raw),
{
    lemma_total_order::<T>();
    let leq = |a: Interval<T>, b: Interval<T>| start_then_end_le(a, b);
    assert(total_ordering(leq)) by {
        assert forall|x: Interval<T>, y: Interval<T>| #[trigger] leq(x, y) && #[trigger] leq(
            y,
            x,
        ) implies x == y by {
            assert(x.start == y.start && x.end == y.end);
        }
        assert forall|x: Interval<T>, y: Interval<T>, z: Interval<T>| #[trigger]
            leq(x, y) && #[trigger] leq(y, z) implies leq(x, z) by {}
        assert forall|x: Interval<T>, y: Interval<T>|
            #[trigger] leq(x, y) || #[trigger] leq(y, x) by {}
        assert forall|x: Interval<T>| #[trigger] leq(x, x) by {}
    }
    raw.lemma_sort_by_ensures(leq);
    assert(sorted_by(sorted, leq)) by {
        assert forall|i: int, j: int| 0 <= i < j < sorted.len() implies #[trigger] leq(
            sorted[i],
            sorted[j],
        ) by {
            assert(start_then_end_le(sorted[i], sorted[j]));
        }
    }
    lemma_sorted_unique(sorted, raw.sort_by(leq), leq);
}

/// By what a sort orders the intervals.
#[derive(Clone, Copy)]
pub(crate) enum SortKey {
    StartThenEnd,
    End,
}

/// `a` comes no later than `b` in the order of `key`.
pub(crate) open spec fn precedes<T: Copy + Ord>(
    a: Interval<T>,
    b: Interval<T>,
    key: SortKey,
) -> bool {
    match key {
        SortKey::StartThenEnd => start_then_end_le(a, b),
        SortKey::End => le(a.end, b.end),
    }
}

/// The intervals of `s` ascend in the order of `key`.
pub(crate) open spec fn ascending<T: Copy + Ord>(s: Seq<Interval<T>>, key: SortKey) -> bool {
    forall|i: int, j: int|
        #![trigger s[i], s[j]]
        0 <= i <= j < s.len() ==> precedes(s[i], s[j], key)
}

/// Whether an interval has the place of `x` in the order of `key`: neither
/// comes before the other.
spec fn ranks_with<T: Copy + Ord>(x: Interval<T>, key: SortKey) -> spec_fn(Interval<T>) -> bool {
    match key {
        SortKey::StartThenEnd => |y: Interval<T>| y == x,
        SortKey::End => ends_at(x.end),
    }
}

/// An interval has the place of another where each precedes the other.
proof fn lemma_ranks_with<T: Copy + Ord>(x: Interval<T>, y: Interval<T>, key: SortKey)
    requires
        is_total_order::<T>(),
    ensures
        ranks_with(x, key)(y) <==> precedes(x, y, key) && precedes(y, x, key),
{
    lemma_total_order::<T>();
}

/// The order of a sort key is reflexive, total and transitive.
proof fn lemma_precedes_order<T: Copy + Ord>(key: SortKey)
    requires
        is_total_order::<T>(),
    ensures
        forall|a: Interval<T>| #[trigger] precedes(a, a, key),
        forall|a: Interval<T>, b: Interval<T>|
            #[trigger] precedes(a, b, key) || precedes(b, a, key),
        forall|a: Interval<T>, b: Interval<T>, c: Interval<T>|
            #[trigger] precedes(a, b, key) && #[trigger] precedes(b, c, key) ==> precedes(
                a,
                c,
                key,
            ),
{
    lemma_total_order::<T>();
}

/// Whether `a` comes no later than `b` in the order of `key`.
fn comes_first<T>(a: &Interval<T>, b: &Interval<T>, key: SortKey) -> (r: bool) where T: Copy + Ord
    ensures
        is_total_order::<T>() ==> r == precedes(*a, *b, key),
{
    proof {
        if is_total_order::<T>() {
            lemma_total_order::<T>();
        }
    }
    match key {
        SortKey::StartThenEnd => {
            below(&a.start, &b.start) || (!below(&b.start, &a.start) && at_most(&a.end, &b.end))
        },
        SortKey::End => at_most(&a.end, &b.end),
    }
}

/// Merges two ascending runs into one, taking from `left` where the next
/// intervals of the two are equal in the order of `key`.
fn merge_runs<T>(left: &Vec<Interval<T>>, right: &Vec<Interval<T>>, key: SortKey) -> (out: Vec<
    Interval<T>,
>) where T: Copy + Ord
    ensures
        out@.to_multiset() == left@.to_multiset().add(right@.to_multiset()),
        is_total_order::<T>() && ascending(left@, key) && ascending(right@, key) ==> ascending(
            out@,
            key,
        ),
        is_total_order::<T>() && ascending(left@ + right@, key) ==> out@ == left@ + right@,
        is_total_order::<T>() && ascending(left@, key) && ascending(right@, key) ==> forall|
            x: Interval<T>,
        | #[trigger]
            out@.filter(ranks_with(x, key)) == left@.filter(ranks_with(x, key)) + right@.filter(
                ranks_with(x, key),
            ),
{
    let ghost ordered = is_total_order::<T>() && ascending(left@, key) && ascending(right@, key);
    let ghost in_place = is_total_order::<T>() && ascending(left@ + right@, key);
    let mut out: Vec<Interval<T>> = Vec::new();
    let mut i: usize = 0;
    let mut j: usize = 0;
    proof {
        assert(left@.take(0) =~= Seq::<Interval<T>>::empty());
        assert(right@.take(0) =~= Seq::<Interval<T>>::empty());
        lemma_multiset_commutative(left@.take(0), right@.take(0));
        assert(left@.take(0) + right@.take(0) =~= out@);
        assert forall|x: Interval<T>| #[trigger]
            out@.filter(ranks_with(x, key)) == left@.take(0).filter(ranks_with(x, key))
                + right@.take(0).filter(ranks_with(x, key)) by {
            reveal(Seq::filter);
            assert(out@.filter(ranks_with(x, key)) =~= Seq::<Interval<T>>::empty());
            assert(left@.take(0).filter(ranks_with(x, key)) =~= Seq::<Interval<T>>::empty());
            assert(right@.take(0).filter(ranks_with(x, key)) =~= Seq::<Interval<T>>::empty());
        }
    }
    while i < left.len() || j < right.len()
        invariant
            i <= left.len(),
            j <= right.len(),
            ordered == (is_total_order::<T>() && ascending(left@, key) && ascending(right@, key)),
            in_place == (is_total_order::<T>() && ascending(left@ + right@, key)),
            out@.to_multiset() == left@.take(i as int).to_multiset().add(
                right@.take(j as int).to_multiset(),
            ),
            ordered ==> ascending(out@, key),
            ordered ==> forall|k: int, m: int|
                #![trigger out@[k], left@[m]]
                0 <= k < out@.len() && i <= m < left@.len() ==> precedes(out@[k], left@[m], key),
            ordered ==> forall|k: int, m: int|
                #![trigger out@[k], right@[m]]
                0 <= k < out@.len() && j <= m < right@.len() ==> precedes(out@[k], right@[m], key),
            in_place ==> (j == 0 && out@ == left@.take(i as int)) || (i == left@.len() && out@
                == left@ + right@.take(j as int)),
            ordered ==> forall|x: Interval<T>| #[trigger]
                out@.filter(ranks_with(x, key)) == left@.take(i as int).filter(ranks_with(x, key))
                    + right@.take(j as int).filter(ranks_with(x, key)),
            ordered && i < left@.len() ==> forall|m: int|
                0 <= m < j ==> !precedes(left@[i as int], #[trigger] right@[m], key),
        decreases left.len() - i + right.len() - j,
    {
        let ghost before = out@;
        if j >= right.len() || (i < left.len() && comes_first(&left[i], &right[j], key)) {
            let next = left[i];
            out.push(next);
            proof {
                assert(left@.take(i + 1) =~= left@.take(i as int).push(next));
                to_multiset_build(left@.take(i as int), next);
                to_multiset_build(before, next);
                assert(out@.to_multiset() =~= left@.take(i + 1).to_multiset().add(
                    right@.take(j as int).to_multiset(),
                ));
                if ordered {
                    lemma_precedes_order::<T>(key);
                    assert forall|a: int, b: int|
                        #![trigger out@[a], out@[b]]
                        0 <= a <= b < out@.len() implies precedes(out@[a], out@[b], key) by {
                        if b == before.len() && a < b {
                            assert(precedes(before[a], left@[i as int], key));
                        }
                    }
                    assert forall|k: int, m: int|
                        #![trigger out@[k], left@[m]]
                        0 <= k < out@.len() && i + 1 <= m < left@.len() implies precedes(
                        out@[k],
                        left@[m],
                        key,
                    ) by {
                        if k == before.len() {
                            assert(precedes(left@[i as int], left@[m], key));
                        } else {
                            assert(precedes(before[k], left@[m], key));
                        }
                    }
                    assert forall|k: int, m: int|
                        #![trigger out@[k], right@[m]]
                        0 <= k < out@.len() && j <= m < right@.len() implies precedes(
                        out@[k],
                        right@[m],
                        key,
                    ) by {
                        if k == before.len() {
                            assert(precedes(left@[i as int], right@[j as int], key));
                            assert(precedes(right@[j as int], right@[m], key));
                        } else {
                            assert(precedes(before[k], right@[m], key));
                        }
                    }
                }
                if ordered {
                    let taken = left@.take(i as int);
                    let other = right@.take(j as int);
                    assert forall|x: Interval<T>| #[trigger]
                        out@.filter(ranks_with(x, key)) == left@.take(i + 1).filter(
                            ranks_with(x, key),
                        ) + other.filter(ranks_with(x, key)) by {
                        let same = ranks_with(x, key);
                        before.lemma_filter_push(next, same);
                        taken.lemma_filter_push(next, same);
                        assert(before.filter(same) == taken.filter(same) + other.filter(same));
                        if same(next) {
                            assert forall|m: int| 0 <= m < other.len() implies !same(other[m]) by {
                                lemma_ranks_with(x, next, key);
                                lemma_ranks_with(x, other[m], key);
                                assert(!precedes(left@[i as int], right@[m], key));
                            }
                            other.lemma_all_neg_filter_empty(same);
                            assert(other.filter(same) =~= Seq::<Interval<T>>::empty());
                            assert(out@.filter(same) =~= left@.take(i + 1).filter(same)
                                + other.filter(same));
                        }
                    }
                    if i + 1 < left@.len() {
                        assert forall|m: int| 0 <= m < j implies !precedes(
                            left@[i + 1],
                            #[trigger] right@[m],
                            key,
                        ) by {
                            assert(precedes(left@[i as int], left@[i + 1], key));
                            assert(!precedes(left@[i as int], right@[m], key));
                        }
                    }
                }
                if in_place {
                    if j == 0 {
                        assert(out@ =~= left@.take(i + 1));
                    } else {
                        assert(false);
                    }
                }
            }
            i += 1;
        } else {
            let next = right[j];
            out.push(next);
            proof {
                assert(right@.take(j + 1) =~= right@.take(j as int).push(next));
                to_multiset_build(right@.take(j as int), next);
                to_multiset_build(before, next);
                assert(out@.to_multiset() =~= left@.take(i as int).to_multiset().add(
                    right@.take(j + 1).to_multiset(),
                ));
                if ordered {
                    lemma_precedes_order::<T>(key);
                    assert forall|a: int, b: int|
                        #![trigger out@[a], out@[b]]
                        0 <= a <= b < out@.len() implies precedes(out@[a], out@[b], key) by {
                        if b == before.len() && a < b {
                            assert(precedes(before[a], right@[j as int], key));
                        }
                    }
                    assert forall|k: int, m: int|
                        #![trigger out@[k], right@[m]]
                        0 <= k < out@.len() && j + 1 <= m < right@.len() implies precedes(
                        out@[k],
                        right@[m],
                        key,
                    ) by {
                        if k == before.len() {
                            assert(precedes(right@[j as int], right@[m], key));
                        } else {
                            assert(precedes(before[k], right@[m], key));
                        }
                    }
                    assert forall|k: int, m: int|
                        #![trigger out@[k], left@[m]]
                        0 <= k < out@.len() && i <= m < left@.len() implies precedes(
                        out@[k],
                        left@[m],
                        key,
                    ) by {
                        if k == before.len() {
                            assert(precedes(right@[j as int], left@[i as int], key));
                            assert(precedes(left@[i as int], left@[m], key));
                        } else {
                            assert(precedes(before[k], left@[m], key));
                        }
                    }
                }
                if ordered {
                    let taken = left@.take(i as int);
                    let other = right@.take(j as int);
                    assert forall|x: Interval<T>| #[trigger]
                        out@.filter(ranks_with(x, key)) == taken.filter(ranks_with(x, key))
                            + right@.take(j + 1).filter(ranks_with(x, key)) by {
                        let same = ranks_with(x, key);
                        before.lemma_filter_push(next, same);
                        other.lemma_filter_push(next, same);
                        assert(before.filter(same) == taken.filter(same) + other.filter(same));
                        assert(out@.filter(same) =~= taken.filter(same) + right@.take(
                            j + 1,
                        ).filter(same));
                    }
                }
                if in_place {
                    if i < left.len() {
                        let joined = left@ + right@;
                        assert(joined[i as int] == left@[i as int]);
                        assert(joined[left@.len() + j] == right@[j as int]);
                        assert(precedes(joined[i as int], joined[left@.len() + j], key));
                        assert(false);
                    }
                    assert(left@.take(i as int) =~= left@);
                    assert(out@ =~= left@ + right@.take(j + 1));
                }
            }
            j += 1;
        }
    }
    proof {
        assert(left@.take(i as int) =~= left@);
        assert(right@.take(j as int) =~= right@);
    }
    out
}

/// The intervals of `v` from `lo` up to `hi`, sorted in the order of `key`.
fn sort_run<T>(v: &Vec<Interval<T>>, lo: usize, hi: usize, key: SortKey) -> (out: Vec<
    Interval<T>,
>) where T: Copy + Ord
    requires
        lo <= hi <= v.len(),
    ensures
        out@.to_multiset() == v@.subrange(lo as int, hi as int).to_multiset(),
        is_total_order::<T>() ==> ascending(out@, key),
        is_total_order::<T>() && ascending(v@.subrange(lo as int, hi as int), key) ==> out@
            == v@.subrange(lo as int, hi as int),
        is_total_order::<T>() ==> forall|x: Interval<T>| #[trigger]
            out@.filter(ranks_with(x, key)) == v@.subrange(lo as int, hi as int).filter(
                ranks_with(x, key),
            ),
    decreases hi - lo,
{
    let ghost run = v@.subrange(lo as int, hi as int);
    if hi - lo <= 1 {
        let mut out: Vec<Interval<T>> = Vec::new();
        if lo < hi {
            out.push(v[lo]);
        }
        proof {
            assert(out@ =~= run);
            if is_total_order::<T>() {
                lemma_precedes_order::<T>(key);
            }
        }
        out
    } else {
        let mid = lo + (hi - lo) / 2;
        let left = sort_run(v, lo, mid, key);
        let right = sort_run(v, mid, hi, key);
        let out = merge_runs(&left, &right, key);
        proof {
            let first = v@.subrange(lo as int, mid as int);
            let second = v@.subrange(mid as int, hi as int);
            assert(run =~= first + second);
            lemma_multiset_commutative(first, second);
            if is_total_order::<T>() {
                assert forall|x: Interval<T>| #[trigger]
                    out@.filter(ranks_with(x, key)) == run.filter(ranks_with(x, key)) by {
                    let same = ranks_with(x, key);
                    Seq::filter_distributes_over_add(first, second, same);
                    assert(left@.filter(same) == first.filter(same));
                    assert(right@.filter(same) == second.filter(same));
                }
            }
            if is_total_order::<T>() && ascending(run, key) {
                assert forall|a: int, b: int|
                    #![trigger first[a], first[b]]
                    0 <= a <= b < first.len() implies precedes(first[a], first[b], key) by {
                    assert(precedes(run[a], run[b], key));
                }
                assert forall|a: int, b: int|
                    #![trigger second[a], second[b]]
                    0 <= a <= b < second.len() implies precedes(second[a], second[b], key) by {
                    assert(precedes(run[first.len() + a], run[first.len() + b], key));
                }
            }
        }
        out
    }
}

/// Reorders `v` so that its intervals ascend by start and, among equal
/// starts, by end.
///
/// The result holds the intervals that `v` held, each as often as before. A
/// collection that is in this order already is left as it is.
pub fn sort_by_start<T>(v: &mut Vec<Interval<T>>) where T: Copy + Ord
    ensures
        final(v)@.to_multiset() == old(v)@.to_multiset(),
        is_total_order::<T>() ==> ascending_by_start_then_end(final(v)@),
        is_total_order::<T>() && ascending_by_start_then_end(old(v)@) ==> final(v)@ == old(v)@,
{
    if v.len() <= 1 {
        proof {
            if is_total_order::<T>() {
                lemma_total_order::<T>();
            }
        }
        return ;
    }
    let sorted = sort_run(v, 0, v.len(), SortKey::StartThenEnd);
    proof {
        assert(v@.subrange(0, v@.len() as int) =~= v@);
    }
    *v = sorted;
}

/// Reorders `v` so that the ends of its intervals ascend; intervals with
/// the same end keep the order that they had.
///
/// The result holds the intervals that `v` held, each as often as before. A
/// collection that is in this order already is left as it is.
pub fn sort_by_end<T>(v: &mut Vec<Interval<T>>) where T: Copy + Ord
    ensures
        final(v)@.to_multiset() == old(v)@.to_multiset(),
        is_total_order::<T>() ==> ascending_by_end(final(v)@),
        is_total_order::<T>() ==> forall|e: T| #[trigger]
            ending_at(final(v)@, e) == ending_at(old(v)@, e),
        is_total_order::<T>() && ascending_by_end(old(v)@) ==> final(v)@ == old(v)@,
{
    if v.len() <= 1 {
        proof {
            if is_total_order::<T>() {
                lemma_total_order::<T>();
            }
        }
        return ;
    }
    let sorted = sort_run(v, 0, v.len(), SortKey::End);
    proof {
        assert(v@.subrange(0, v@.len() as int) =~= v@);
        if is_total_order::<T>() {
            assert forall|e: T| #[trigger] ending_at(sorted@, e) == ending_at(v@, e) by {
                let x = Interval { start: e, end: e };
                assert(ranks_with(x, SortKey::End) == ends_at(e));
                assert(sorted@.filter(ranks_with(x, SortKey::End)) == v@.filter(
                    ranks_with(x, SortKey::End),
                ));
            }
        }
    }
    *v = sorted;
}

} // verus!
