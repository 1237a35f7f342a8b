//! How deep the intervals of a collection overlap.

use crate::ds::MinHeap;
use crate::intervals::many::{all_intervals, views_of};
use crate::intervals::model::{
    covered, is_canonical, is_disjoint, lemma_append, lemma_last_started, lemma_points_push,
    lemma_run_inherits, separated, sorted_by_start,
};
use crate::intervals::sort::{
    in_start_order, lemma_ascending_is_sorted_by_start, lemma_start_order_is_unique, sort_by_start,
};
use crate::intervals::Interval;
use crate::order::{at_most, below, is_total_order, larger, le, lemma_total_order, lt, max_of};
use vstd::multiset::Multiset;
use vstd::prelude::*;
use vstd::seq_lib::{
    seq_to_set_is_finite, to_multiset_build, to_multiset_contains, to_multiset_remove,
};
use vstd::set_lib::{lemma_int_range, lemma_len_subset, set_int_range};

verus! {

/// The intervals of `s` before the one at `i` that have not ended where it
/// starts. An interval that ends just there has ended.
pub open spec fn running_at<T: Copy + Ord>(s: Seq<Interval<T>>, i: int) -> Set<int> {
    Set::new(|j: int| 0 <= j < i && lt(s[i].start, s[j].end))
}

/// The number of intervals of `s` that are at work where the one at `i`
/// starts, itself among them.
pub open spec fn depth_at<T: Copy + Ord>(s: Seq<Interval<T>>, i: int) -> nat {
    running_at(s, i).len() + 1
}

/// The greatest depth at the start of one of the first `n` intervals of `s`;
/// zero where `n` is zero.
pub open spec fn max_depth_upto<T: Copy + Ord>(s: Seq<Interval<T>>, n: int) -> nat
    decreases n,
{
    if n <= 0 {
        0
    } else {
        let before = max_depth_upto(s, n - 1);
        let here = depth_at(s, n - 1);
        if here > before {
            here
        } else {
            before
        }
    }
}

/// The greatest depth at the start of an interval of `s`; zero where `s` is
/// empty.
pub open spec fn max_depth<T: Copy + Ord>(s: Seq<Interval<T>>) -> nat {
    max_depth_upto(s, s.len() as int)
}

/// The greatest depth is the depth at the start of some interval, and no
/// interval starts at a greater depth.
pub proof fn lemma_max_depth_is_greatest<T: Copy + Ord>(s: Seq<Interval<T>>, n: int)
    requires
        0 <= n <= s.len(),
    ensures
        forall|i: int| 0 <= i < n ==> #[trigger] depth_at(s, i) <= max_depth_upto(s, n),
        n > 0 ==> exists|i: int| 0 <= i < n && #[trigger] depth_at(s, i) == max_depth_upto(s, n),
        n == 0 ==> max_depth_upto(s, n) == 0,
    decreases n,
{
    if n > 0 {
        lemma_max_depth_is_greatest(s, n - 1);
        if depth_at(s, n - 1) > max_depth_upto(s, n - 1) {
            assert(depth_at(s, n - 1) == max_depth_upto(s, n));
        } else if n - 1 > 0 {
            let i = choose|i: int| 0 <= i < n - 1 && #[trigger] depth_at(s, i) == max_depth_upto(
                s,
                n - 1,
            );
            assert(depth_at(s, i) == max_depth_upto(s, n));
        } else {
            assert(depth_at(s, 0) == max_depth_upto(s, n));
        }
    }
}

/// The greatest depth among the first `n` intervals is at most `n`.
pub proof fn lemma_max_depth_bounded<T: Copy + Ord>(s: Seq<Interval<T>>, n: int)
    requires
        0 <= n <= s.len(),
    ensures
        max_depth_upto(s, n) <= n,
    decreases n,
{
    if n > 0 {
        lemma_max_depth_bounded(s, n - 1);
        lemma_int_range(0, n - 1);
        assert(running_at(s, n - 1).subset_of(set_int_range(0, n - 1)));
        lemma_len_subset(running_at(s, n - 1), set_int_range(0, n - 1));
    }
}

/// The intervals of `s` that cover `p`: those at work there.
pub open spec fn at_work<T: Copy + Ord>(s: Seq<Interval<T>>, p: T) -> Set<int> {
    Set::new(|j: int| 0 <= j < s.len() && s[j].covers(p))
}

/// Every interval of `s` has some extent.
pub open spec fn all_have_extent<T: Copy + Ord>(s: Seq<Interval<T>>) -> bool {
    forall|i: int| 0 <= i < s.len() ==> lt((#[trigger] s[i]).start, s[i].end)
}

/// At no point of a collection sorted by start are more intervals at work
/// than its greatest depth.
pub proof fn lemma_depth_bounds_every_point<T: Copy + Ord>(s: Seq<Interval<T>>, p: T)
    requires
        is_total_order::<T>(),
        sorted_by_start(s),
    ensures
        at_work(s, p).finite(),
        at_work(s, p).len() <= max_depth(s),
{
    lemma_total_order::<T>();
    let here = at_work(s, p);
    lemma_int_range(0, s.len() as int);
    assert(here.subset_of(set_int_range(0, s.len() as int)));
    lemma_len_subset(here, set_int_range(0, s.len() as int));
    if here.len() > 0 {
        let j = here.choose();
        assert(here.contains(j));
        let last = lemma_last_started(s, p, j);
        let busy = running_at(s, last);
        lemma_int_range(0, last);
        assert(busy.subset_of(set_int_range(0, last)));
        lemma_len_subset(busy, set_int_range(0, last));
        assert(here.subset_of(busy.insert(last))) by {
            assert forall|q: int| here.contains(q) implies busy.insert(last).contains(q) by {
                if q > last {
                    assert(lt(p, s[q].start));
                }
            }
        }
        broadcast use vstd::set::group_set_axioms;

        lemma_len_subset(here, busy.insert(last));
        lemma_max_depth_is_greatest(s, s.len() as int);
        assert(depth_at(s, last) <= max_depth(s));
    }
}

/// In a collection sorted by start, of intervals with extent, the greatest
/// depth is reached: at some point as many intervals are at work. With
/// [`lemma_depth_bounds_every_point`], the greatest depth is the greatest
/// number of intervals at work at one point.
pub proof fn lemma_depth_is_reached<T: Copy + Ord>(s: Seq<Interval<T>>) -> (p: T)
    requires
        is_total_order::<T>(),
        sorted_by_start(s),
        all_have_extent(s),
        s.len() > 0,
    ensures
        at_work(s, p).len() == max_depth(s),
{
    lemma_total_order::<T>();
    lemma_max_depth_is_greatest(s, s.len() as int);
    let i = choose|i: int| 0 <= i < s.len() && #[trigger] depth_at(s, i) == max_depth(s);
    let p = s[i].start;
    let busy = running_at(s, i);
    let here = at_work(s, p);
    lemma_depth_bounds_every_point(s, p);
    lemma_int_range(0, i);
    assert(busy.subset_of(set_int_range(0, i)));
    lemma_len_subset(busy, set_int_range(0, i));
    assert(busy.insert(i).subset_of(here)) by {
        assert forall|q: int| busy.insert(i).contains(q) implies here.contains(q) by {
            if q == i {
                assert(lt(s[i].start, s[i].end));
            } else {
                assert(le(s[q].start, s[i].start));
            }
        }
    }
    broadcast use vstd::set::group_set_axioms;

    lemma_len_subset(busy.insert(i), here);
    p
}

/// The ends of the intervals of `s` at the indices `alive`.
spec fn ends_of<T: Copy + Ord>(s: Seq<Interval<T>>, alive: Seq<int>) -> Seq<T> {
    Seq::new(alive.len(), |k: int| s[alive[k]].end)
}

/// The state of the sweep over `s` before the interval at `i`: the queue
/// holds the ends of the intervals at the indices `alive`, every interval
/// before `i` that is not among them has ended where the last one started,
/// and there are as many of them as the greatest depth so far.
spec fn sweeping<T: Copy + Ord>(
    s: Seq<Interval<T>>,
    i: int,
    alive: Seq<int>,
    queue: Multiset<T>,
) -> bool {
    &&& alive.no_duplicates()
    &&& forall|k: int| 0 <= k < alive.len() ==> 0 <= #[trigger] alive[k] < i
    &&& queue == ends_of(s, alive).to_multiset()
    &&& forall|j: int|
        0 <= j < i && !alive.contains(j) ==> le((#[trigger] s[j]).end, s[i - 1].start)
    &&& alive.len() == max_depth_upto(s, i)
}

/// A set of indices all of which occur in a sequence has at most as many
/// members as the sequence is long.
proof fn lemma_set_within_seq(set: Set<int>, alive: Seq<int>)
    requires
        forall|j: int| set.contains(j) ==> alive.contains(j),
    ensures
        set.finite(),
        set.len() <= alive.len(),
{
    seq_to_set_is_finite(alive);
    assert(set.subset_of(alive.to_set()));
    lemma_len_subset(set, alive.to_set());
    alive.lemma_cardinality_of_set();
}

/// A sequence without duplicates all of whose values are in a finite set is
/// at most as long as the set has members.
proof fn lemma_seq_within_set(alive: Seq<int>, set: Set<int>)
    requires
        alive.no_duplicates(),
        set.finite(),
        forall|k: int| 0 <= k < alive.len() ==> set.contains(#[trigger] alive[k]),
    ensures
        alive.len() <= set.len(),
{
    alive.unique_seq_to_set();
    assert(alive.to_set().subset_of(set));
    lemma_len_subset(alive.to_set(), set);
}

/// The sweep takes the interval at `i` in: where `gone` is the place in
/// `alive` of an interval that has ended where this one starts, its end
/// leaves the queue; then the end of the interval at `i` enters it.
proof fn lemma_sweep_step<T: Copy + Ord>(
    s: Seq<Interval<T>>,
    i: int,
    alive: Seq<int>,
    queue: Multiset<T>,
    gone: Option<int>,
)
    requires
        is_total_order::<T>(),
        sorted_by_start(s),
        0 <= i < s.len(),
        sweeping(s, i, alive, queue),
        match gone {
            Some(k) => 0 <= k < alive.len() && le(s[alive[k]].end, s[i].start),
            None => forall|k: int|
                0 <= k < alive.len() ==> lt(s[i].start, s[#[trigger] alive[k]].end),
        },
    ensures
        match gone {
            Some(k) => sweeping(
                s,
                i + 1,
                alive.remove(k).push(i),
                queue.remove(s[alive[k]].end).insert(s[i].end),
            ),
            None => sweeping(s, i + 1, alive.push(i), queue.insert(s[i].end)),
        },
{
    lemma_total_order::<T>();
    let rest = match gone {
        Some(k) => alive.remove(k),
        None => alive,
    };
    let next = rest.push(i);
    let busy = running_at(s, i);
    assert(rest.no_duplicates() && forall|k: int|
        0 <= k < rest.len() ==> 0 <= #[trigger] rest[k] < i) by {
        if let Some(k) = gone {
            assert forall|a: int, b: int|
                0 <= a < rest.len() && 0 <= b < rest.len() && a != b implies rest[a] != rest[b] by {
                let a0 = if a < k { a } else { a + 1 };
                let b0 = if b < k { b } else { b + 1 };
                assert(rest[a] == alive[a0] && rest[b] == alive[b0]);
            }
            assert forall|q: int| 0 <= q < rest.len() implies 0 <= #[trigger] rest[q] < i by {
                let q0 = if q < k { q } else { q + 1 };
                assert(rest[q] == alive[q0]);
            }
        }
    }
    assert(next.no_duplicates()) by {
        assert forall|a: int, b: int|
            0 <= a < next.len() && 0 <= b < next.len() && a != b implies next[a] != next[b] by {
            if a < rest.len() {
                assert(next[a] == rest[a]);
            }
            if b < rest.len() {
                assert(next[b] == rest[b]);
            }
        }
    }
    // every interval not alive any more has ended where the one at `i` starts
    assert forall|j: int| 0 <= j < i + 1 && !next.contains(j) implies le(
        (#[trigger] s[j]).end,
        s[i].start,
    ) by {
        if j == i {
            assert(next[rest.len() as int] == i);
        } else if alive.contains(j) {
            let q = choose|q: int| 0 <= q < alive.len() && alive[q] == j;
            match gone {
                Some(k) => {
                    if q != k {
                        let q1 = if q < k { q } else { q - 1 };
                        assert(rest[q1] == j);
                        assert(next[q1] == j);
                    }
                },
                None => {
                    assert(next[q] == j);
                },
            }
        } else {
            assert(le(s[j].end, s[i - 1].start));
            assert(le(s[i - 1].start, s[i].start));
        }
    }
    // the intervals still running are among those left alive
    assert forall|j: int| busy.contains(j) implies rest.contains(j) by {
        if !alive.contains(j) {
            assert(le(s[j].end, s[i - 1].start));
            assert(le(s[i - 1].start, s[i].start));
        }
        let q = choose|q: int| 0 <= q < alive.len() && alive[q] == j;
        match gone {
            Some(k) => {
                let q1 = if q < k { q } else { q - 1 };
                assert(q != k);
                assert(rest[q1] == j);
            },
            None => {},
        }
    }
    lemma_set_within_seq(busy, rest);
    lemma_max_depth_is_greatest(s, i);
    match gone {
        Some(k) => {
            let ends = ends_of(s, alive);
            assert(ends[k] == s[alive[k]].end);
            to_multiset_remove(ends, k);
            assert(ends.remove(k) =~= ends_of(s, rest));
            to_multiset_build(ends_of(s, rest), s[i].end);
            assert(ends_of(s, rest).push(s[i].end) =~= ends_of(s, next));
        },
        None => {
            to_multiset_build(ends_of(s, alive), s[i].end);
            assert(ends_of(s, alive).push(s[i].end) =~= ends_of(s, next));
            assert forall|k: int|
                0 <= k < alive.len() implies busy.contains(#[trigger] alive[k]) by {}
            lemma_seq_within_set(alive, busy);
        },
    }
}

/// The greatest number of intervals of a collection, sorted by start, that
/// are at work at once; an interval that ends where another starts has made
/// room for it.
///
/// The intervals are swept in order. A queue holds the ends of those at
/// work: before an interval enters, the one that ends first leaves if it has
/// ended. The result is the greatest size that the queue has reached, as far
/// as a `u32` holds it.
pub fn max_overlaps_depth<T>(intervals: &Vec<Interval<T>>) -> (depth: u32) where T: Copy + Ord
    ensures
        is_total_order::<T>() && sorted_by_start(intervals@) ==> depth == max_depth(
            intervals@,
        ) as u32,
        is_total_order::<T>() && sorted_by_start(intervals@) && intervals@.len() <= u32::MAX
            ==> depth == max_depth(intervals@),
{
    let ghost s = intervals@;
    let ghost ordered = is_total_order::<T>() && sorted_by_start(s);
    let ghost mut alive: Seq<int> = Seq::empty();
    let mut heap: MinHeap<T> = MinHeap::new();
    let mut deepest: usize = 0;
    let mut i: usize = 0;
    proof {
        assert(ends_of(s, alive) =~= Seq::<T>::empty());
        assert(ends_of(s, alive).to_multiset() =~= Multiset::<T>::empty()) by {
            broadcast use vstd::seq_lib::group_to_multiset_ensures;

        }
    }
    while i < intervals.len()
        invariant
            s == intervals@,
            i <= s.len(),
            ordered == (is_total_order::<T>() && sorted_by_start(s)),
            ordered ==> sweeping(s, i as int, alive, heap@),
            ordered ==> deepest == alive.len(),
        decreases s.len() - i,
    {
        let interval = intervals[i];
        let ghost queue = heap@;
        let finished = match heap.peek() {
            Some(first) => {
                let ended = at_most(first, &interval.start);
                proof {
                    if ordered {
                        lemma_total_order::<T>();
                        assert forall|y: T| #[trigger] queue.contains(y) implies ended || lt(
                            interval.start,
                            y,
                        ) by {
                            assert(le(*first, y));
                        }
                    }
                }
                ended
            },
            None => {
                proof {
                    assert forall|y: T| #[trigger] queue.contains(y) implies lt(
                        interval.start,
                        y,
                    ) by {
                        broadcast use vstd::multiset::group_multiset_axioms;

                        assert(queue.len() == 0);
                        assert(queue =~= Multiset::<T>::empty());
                    }
                }
                false
            },
        };
        assert(ordered && !finished ==> forall|y: T| #[trigger]
            queue.contains(y) ==> lt(interval.start, y));
        let ghost mut gone: Option<int> = None;
        if finished {
            let left = heap.pop();
            proof {
                if ordered {
                    lemma_total_order::<T>();
                    let x = left->0;
                    let ends = ends_of(s, alive);
                    to_multiset_contains(ends, x);
                    let k = choose|k: int| 0 <= k < ends.len() && ends[k] == x;
                    gone = Some(k);
                }
            }
        } else {
            proof {
                if ordered {
                    lemma_total_order::<T>();
                    let ends = ends_of(s, alive);
                    assert forall|k: int| 0 <= k < alive.len() implies lt(
                        s[i as int].start,
                        s[#[trigger] alive[k]].end,
                    ) by {
                        to_multiset_contains(ends, ends[k]);
                        assert(ends.contains(ends[k]));
                        assert(queue.contains(ends[k]));
                    }
                }
            }
        }
        heap.push(interval.end);
        proof {
            if ordered {
                lemma_sweep_step(s, i as int, alive, queue, gone);
                alive = match gone {
                    Some(k) => alive.remove(k).push(i as int),
                    None => alive.push(i as int),
                };
            }
        }
        if heap.len() > deepest {
            deepest = heap.len();
        }
        proof {
            if ordered {
                vstd::seq_lib::to_multiset_len(ends_of(s, alive));
            }
        }
        i += 1;
    }
    proof {
        lemma_max_depth_bounded(s, s.len() as int);
    }
    #[verifier::truncate]
    (deepest as u32)
}

/// The greatest number of intervals, of any number of collections taken
/// together, that are at work at once.
///
/// The intervals of all collections are put in order of start, and swept as
/// [`max_overlaps_depth`] sweeps one collection.
pub fn max_overlaps_interval_iters<T>(intervals: &Vec<Vec<Interval<T>>>) -> (depth: u32) where
    T: Copy + Ord,

    ensures
        is_total_order::<T>() ==> depth == max_depth(
            in_start_order(all_intervals(intervals@)),
        ) as u32,
        is_total_order::<T>() && all_intervals(intervals@).len() <= u32::MAX ==> depth
            == max_depth(in_start_order(all_intervals(intervals@))),
{
    let ghost srcs = views_of(intervals@);
    let mut all: Vec<Interval<T>> = Vec::new();
    let mut j: usize = 0;
    proof {
        assert(srcs.take(0) =~= Seq::<Seq<Interval<T>>>::empty());
    }
    while j < intervals.len()
        invariant
            srcs == views_of(intervals@),
            j <= intervals@.len(),
            all@ == srcs.take(j as int).flatten(),
        decreases intervals@.len() - j,
    {
        let run = &intervals[j];
        let ghost joined = all@;
        let mut i: usize = 0;
        while i < run.len()
            invariant
                i <= run@.len(),
                all@ == joined + run@.take(i as int),
            decreases run@.len() - i,
        {
            all.push(run[i]);
            proof {
                assert(run@.take(i + 1) =~= run@.take(i as int).push(run@[i as int]));
                assert(all@ =~= joined + run@.take(i + 1));
            }
            i += 1;
        }
        proof {
            assert(run@.take(run@.len() as int) =~= run@);
            assert(srcs.take(j + 1) =~= srcs.take(j as int).push(srcs[j as int]));
            srcs.take(j as int).lemma_flatten_push(srcs[j as int]);
        }
        j += 1;
    }
    let ghost raw = all@;
    proof {
        assert(srcs.take(srcs.len() as int) =~= srcs);
    }
    sort_by_start(&mut all);
    proof {
        if is_total_order::<T>() {
            lemma_start_order_is_unique(all@, raw);
            lemma_ascending_is_sorted_by_start(all@);
            vstd::seq_lib::to_multiset_len(all@);
            vstd::seq_lib::to_multiset_len(raw);
        }
    }
    max_overlaps_depth(&all)
}

/// Whether some interval of a collection, sorted by start, overlaps or
/// touches one before it: whether the collection is not canonical.
pub fn has_overlaps<T>(intervals: &Vec<Interval<T>>) -> (found: bool) where T: Copy + Ord
    ensures
        is_total_order::<T>() && sorted_by_start(intervals@) ==> found == !separated(intervals@),
{
    let ghost s = intervals@;
    let ghost ordered = is_total_order::<T>() && sorted_by_start(s);
    let n = intervals.len();
    if n == 0 {
        return false;
    }
    let mut reach = intervals[0].end;
    let mut j: usize = 1;
    proof {
        if ordered {
            lemma_total_order::<T>();
        }
    }
    while j < n
        invariant
            s == intervals@,
            n == s.len(),
            1 <= j <= n,
            ordered == (is_total_order::<T>() && sorted_by_start(s)),
            ordered ==> separated(s.take(j as int)),
            ordered ==> forall|i: int| 0 <= i < j ==> le((#[trigger] s[i]).end, reach),
            ordered ==> exists|i: int| 0 <= i < j && (#[trigger] s[i]).end == reach,
        decreases n - j,
    {
        let next = intervals[j];
        proof {
            if ordered {
                lemma_total_order::<T>();
            }
        }
        if at_most(&next.start, &reach) {
            proof {
                if ordered {
                    let i = choose|i: int| 0 <= i < j && (#[trigger] s[i]).end == reach;
                    assert(!lt(s[i].end, s[j as int].start));
                }
            }
            return true;
        }
        proof {
            if ordered {
                let longer = s.take(j + 1);
                let shorter = s.take(j as int);
                assert forall|a: int, b: int|
                    #![trigger longer[a], longer[b]]
                    0 <= a < b < longer.len() implies lt(longer[a].end, longer[b].start) by {
                    if b < j {
                        assert(lt(shorter[a].end, shorter[b].start));
                    } else {
                        assert(le(s[a].end, reach));
                    }
                }
            }
        }
        reach = larger(reach, next.end);
        j += 1;
    }
    proof {
        assert(s.take(n as int) =~= s);
    }
    false
}

/// Whether some interval of a collection, sorted by start, overlaps or
/// touches one before it; the test of [`has_overlaps`].
pub fn has_overlaps_interval_iters<T>(intervals: &Vec<Interval<T>>) -> (found: bool) where
    T: Copy + Ord,

    ensures
        is_total_order::<T>() && sorted_by_start(intervals@) ==> found == !separated(intervals@),
{
    has_overlaps(intervals)
}

/// `s` without the intervals that overlap or touch the interval kept last
/// before them.
pub open spec fn without_overlaps<T: Copy + Ord>(s: Seq<Interval<T>>) -> Seq<Interval<T>>
    decreases s.len(),
{
    if s.len() == 0 {
        Seq::empty()
    } else {
        let before = without_overlaps(s.drop_last());
        if before.len() > 0 && le(s.last().start, before.last().end) {
            before
        } else {
            before.push(s.last())
        }
    }
}

/// What is left of a collection sorted by start, when the intervals that
/// overlap or touch the one kept before them are dropped, is canonical; and
/// of a canonical collection nothing is dropped.
pub proof fn lemma_without_overlaps<T: Copy + Ord>(s: Seq<Interval<T>>)
    requires
        is_total_order::<T>(),
        sorted_by_start(s),
    ensures
        is_canonical(without_overlaps(s)),
        without_overlaps(s).len() <= s.len(),
        s.len() > 0 ==> without_overlaps(s).len() > 0 && exists|i: int|
            0 <= i < s.len() && without_overlaps(s).last() == #[trigger] s[i],
        is_canonical(s) ==> without_overlaps(s) == s,
    decreases s.len(),
{
    lemma_total_order::<T>();
    if s.len() > 0 {
        let rest = s.drop_last();
        let x = s.last();
        lemma_run_inherits(s, 0, s.len() - 1);
        assert(rest == s.subrange(0, s.len() - 1));
        lemma_without_overlaps(rest);
        let before = without_overlaps(rest);
        if is_canonical(s) {
            assert(before == rest);
            if rest.len() > 0 {
                assert(lt(s[rest.len() - 1].end, s[s.len() - 1].start));
            }
            assert(without_overlaps(s) =~= s);
        }
        if before.len() > 0 && le(x.start, before.last().end) {
            let i = choose|i: int| 0 <= i < rest.len() && before.last() == #[trigger] rest[i];
            assert(before.last() == s[i]);
        } else {
            if before.len() > 0 {
                let i = choose|i: int| 0 <= i < rest.len() && before.last() == #[trigger] rest[i];
                assert(le(s[i].start, s[s.len() - 1].start));
            }
            lemma_append(before, x);
            assert(without_overlaps(s).last() == s[s.len() - 1]);
        }
    }
}

/// Drops from a collection, sorted by start, each interval that overlaps or
/// touches the interval kept last before it; nothing is merged.
///
/// What is left is canonical. A canonical collection is left as it is.
pub fn remove_overlaps<T>(intervals: &mut Vec<Interval<T>>) where T: Copy + Ord
    ensures
        is_total_order::<T>() ==> final(intervals)@ == without_overlaps(old(intervals)@),
        is_total_order::<T>() && sorted_by_start(old(intervals)@) ==> is_canonical(
            final(intervals)@,
        ),
        is_total_order::<T>() && is_canonical(old(intervals)@) ==> final(intervals)@ == old(
            intervals,
        )@,
{
    let ghost s = intervals@;
    let n = intervals.len();
    let mut write: usize = 0;
    let mut read: usize = 0;
    proof {
        assert(s.take(0) =~= Seq::<Interval<T>>::empty());
        assert(intervals@.take(0) =~= Seq::<Interval<T>>::empty());
    }
    while read < n
        invariant
            s == old(intervals)@,
            n == s.len(),
            n == intervals@.len(),
            write <= read <= n,
            forall|i: int| read <= i < n ==> #[trigger] intervals@[i] == s[i],
            is_total_order::<T>() ==> intervals@.take(write as int) == without_overlaps(
                s.take(read as int),
            ),
        decreases n - read,
    {
        let next = intervals[read];
        let ghost kept = intervals@.take(write as int);
        let ghost shown = intervals@;
        let overlaps = write > 0 && at_most(&next.start, &intervals[write - 1].end);
        if !overlaps {
            intervals[write] = next;
        }
        proof {
            assert(s.take(read + 1).drop_last() =~= s.take(read as int));
            assert(s.take(read + 1).last() == next);
            if is_total_order::<T>() {
                if write > 0 {
                    assert(kept.last() == shown[write - 1]);
                }
                if overlaps {
                    assert(intervals@.take(write as int) =~= kept);
                } else {
                    assert(intervals@.take(write + 1) =~= kept.push(next));
                }
            }
        }
        if !overlaps {
            write += 1;
        }
        read += 1;
    }
    intervals.truncate(write);
    proof {
        assert(s.take(n as int) =~= s);
        if is_total_order::<T>() {
            assert(intervals@ =~= without_overlaps(s));
            if sorted_by_start(s) {
                lemma_without_overlaps(s);
            }
            if is_canonical(s) {
                lemma_without_overlaps(s);
            }
        }
    }
}

/// `s` with each interval cut to start no earlier than where the interval
/// kept last before it ends, and without the intervals of which nothing is
/// left.
pub open spec fn clipped<T: Copy + Ord>(s: Seq<Interval<T>>) -> Seq<Interval<T>>
    decreases s.len(),
{
    if s.len() == 0 {
        Seq::empty()
    } else {
        let before = clipped(s.drop_last());
        let cut = cut_after(before, s.last());
        if lt(cut.start, cut.end) {
            before.push(cut)
        } else {
            before
        }
    }
}

/// `x` cut to start no earlier than where the last interval of `before`
/// ends.
pub open spec fn cut_after<T: Copy + Ord>(
    before: Seq<Interval<T>>,
    x: Interval<T>,
) -> Interval<T> {
    if before.len() > 0 {
        Interval { start: max_of(x.start, before.last().end), end: x.end }
    } else {
        x
    }
}

/// Cutting the intervals of a collection sorted by start leaves the points
/// that it covers as they are, and leaves intervals that have extent and do
/// not overlap.
pub proof fn lemma_clipped<T: Copy + Ord>(s: Seq<Interval<T>>)
    requires
        is_total_order::<T>(),
        sorted_by_start(s),
    ensures
        is_disjoint(clipped(s)),
        forall|p: T| #[trigger] covered(clipped(s), p) == covered(s, p),
        clipped(s).len() <= s.len(),
        clipped(s).len() > 0 ==> exists|i: int|
            0 <= i < s.len() && clipped(s).last().end == (#[trigger] s[i]).end,
    decreases s.len(),
{
    lemma_total_order::<T>();
    if s.len() > 0 {
        let rest = s.drop_last();
        let x = s.last();
        lemma_run_inherits(s, 0, s.len() - 1);
        assert(rest == s.subrange(0, s.len() - 1));
        lemma_clipped(rest);
        let before = clipped(rest);
        let cut = cut_after(before, x);
        let out = clipped(s);
        assert(s =~= rest.push(x));
        lemma_points_push(rest, x);
        lemma_points_push(before, cut);
        if before.len() > 0 {
            let i = choose|i: int|
                0 <= i < rest.len() && before.last().end == (#[trigger] rest[i]).end;
            assert(rest[i] == s[i]);
            assert(le(s[i].start, s[s.len() - 1].start));
            assert forall|p: T| x.covers(p) && !cut.covers(p) implies covered(rest, p) by {
                assert(rest[i].covers(p));
            }
        }
        assert forall|p: T| #[trigger] covered(out, p) == covered(s, p) by {
            assert(covered(before, p) == covered(rest, p));
            if cut.covers(p) {
                assert(x.covers(p));
            }
        }
        if lt(cut.start, cut.end) {
            assert(out.last() == cut);
            assert(cut.end == s[s.len() - 1].end);
            assert forall|i: int|
                0 <= i < out.len() implies lt((#[trigger] out[i]).start, out[i].end) by {
                if i < before.len() {
                    assert(lt(before[i].start, before[i].end));
                }
            }
            assert forall|i: int, j: int|
                #![trigger out[i], out[j]]
                0 <= i < j < out.len() implies le(
                out[i].end,
                out[j].start,
            ) by {
                if j < before.len() {
                    assert(le(before[i].end, before[j].start));
                } else if i < before.len() - 1 {
                    assert(le(before[i].end, before[before.len() - 1].start));
                    assert(lt(before[before.len() - 1].start, before[before.len() - 1].end));
                }
            }
        } else {
            if before.len() > 0 {
                let i = choose|i: int|
                    0 <= i < rest.len() && before.last().end == (#[trigger] rest[i]).end;
                assert(out.last().end == s[i].end);
            }
        }
    }
}

/// Cuts from each interval of a collection, sorted by start, what the
/// intervals before it cover already, and drops the intervals of which
/// nothing is left; nothing is merged.
///
/// What is left covers the points that the collection covered; its
/// intervals have extent, and none starts before an earlier one has ended.
pub fn clip_overlaps<T>(intervals: &mut Vec<Interval<T>>) where T: Copy + Ord
    ensures
        is_total_order::<T>() ==> final(intervals)@ == clipped(old(intervals)@),
        is_total_order::<T>() && sorted_by_start(old(intervals)@) ==> is_disjoint(
            final(intervals)@,
        ) && forall|p: T| #[trigger]
            covered(final(intervals)@, p) == covered(old(intervals)@, p),
{
    let ghost s = intervals@;
    let n = intervals.len();
    let mut write: usize = 0;
    let mut read: usize = 0;
    proof {
        assert(s.take(0) =~= Seq::<Interval<T>>::empty());
        assert(intervals@.take(0) =~= Seq::<Interval<T>>::empty());
    }
    while read < n
        invariant
            s == old(intervals)@,
            n == s.len(),
            n == intervals@.len(),
            write <= read <= n,
            forall|i: int| read <= i < n ==> #[trigger] intervals@[i] == s[i],
            is_total_order::<T>() ==> intervals@.take(write as int) == clipped(s.take(read as int)),
        decreases n - read,
    {
        let next = intervals[read];
        let ghost kept = intervals@.take(write as int);
        let ghost shown = intervals@;
        let cut = if write > 0 {
            Interval { start: larger(next.start, intervals[write - 1].end), end: next.end }
        } else {
            next
        };
        let has_extent = below(&cut.start, &cut.end);
        if has_extent {
            intervals[write] = cut;
        }
        proof {
            assert(s.take(read + 1).drop_last() =~= s.take(read as int));
            assert(s.take(read + 1).last() == next);
            if is_total_order::<T>() {
                if write > 0 {
                    assert(kept.last() == shown[write - 1]);
                }
                assert(cut == cut_after(kept, next));
                if has_extent {
                    assert(intervals@.take(write + 1) =~= kept.push(cut));
                } else {
                    assert(intervals@.take(write as int) =~= kept);
                }
            }
        }
        if has_extent {
            write += 1;
        }
        read += 1;
    }
    intervals.truncate(write);
    proof {
        assert(s.take(n as int) =~= s);
        if is_total_order::<T>() {
            assert(intervals@ =~= clipped(s));
            if sorted_by_start(s) {
                lemma_clipped(s);
            }
        }
    }
}

} // verus!
