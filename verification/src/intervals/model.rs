//! What it means for a collection of intervals to be sorted, canonical, and
//! the merged form of another collection.

use crate::intervals::Interval;
use crate::order::{is_total_order, le, lemma_total_order, lt, max_of, min_of};
use vstd::prelude::*;
use vstd::seq_lib::to_multiset_contains;

verus! {

/// Every interval of `s` is well formed.
pub open spec fn all_well_formed<T: Copy + Ord>(s: Seq<Interval<T>>) -> bool {
    forall|i: int| 0 <= i < s.len() ==> (#[trigger] s[i]).well_formed()
}

/// The starts of `s` ascend.
pub open spec fn sorted_by_start<T: Copy + Ord>(s: Seq<Interval<T>>) -> bool {
    forall|i: int, j: int|
        #![trigger s[i], s[j]]
        0 <= i <= j < s.len() ==> le(s[i].start, s[j].start)
}

/// Every interval of `s` ends strictly before each later one starts: no two
/// of them overlap or touch.
pub open spec fn separated<T: Copy + Ord>(s: Seq<Interval<T>>) -> bool {
    forall|i: int, j: int|
        #![trigger s[i], s[j]]
        0 <= i < j < s.len() ==> lt(s[i].end, s[j].start)
}

/// `s` is sorted by start and no two of its intervals overlap or touch.
pub open spec fn is_canonical<T: Copy + Ord>(s: Seq<Interval<T>>) -> bool {
    sorted_by_start(s) && separated(s)
}

/// Each interval of `s` has some extent, and none starts before an earlier
/// one has ended: no two of them overlap, though two may touch.
pub open spec fn is_disjoint<T: Copy + Ord>(s: Seq<Interval<T>>) -> bool {
    &&& forall|i: int| 0 <= i < s.len() ==> lt((#[trigger] s[i]).start, s[i].end)
    &&& forall|i: int, j: int|
        #![trigger s[i], s[j]]
        0 <= i < j < s.len() ==> le(s[i].end, s[j].start)
}

/// Some interval of `s` covers `x`.
pub open spec fn covered<T: Copy + Ord>(s: Seq<Interval<T>>, x: T) -> bool {
    exists|i: int| 0 <= i < s.len() && (#[trigger] s[i]).covers(x)
}

/// Some interval of `s` touches `x`.
pub open spec fn touched<T: Copy + Ord>(s: Seq<Interval<T>>, x: T) -> bool {
    exists|i: int| 0 <= i < s.len() && (#[trigger] s[i]).touches(x)
}

/// `a` and `b` cover the same points and touch the same points.
pub open spec fn same_points<T: Copy + Ord>(a: Seq<Interval<T>>, b: Seq<Interval<T>>) -> bool {
    &&& forall|x: T| #[trigger] covered(a, x) == covered(b, x)
    &&& forall|x: T| #[trigger] touched(a, x) == touched(b, x)
}

/// `out` is the merged form of `src`: canonical, with the points of `src` and
/// no others, and well formed where `src` is.
pub open spec fn is_merged<T: Copy + Ord>(out: Seq<Interval<T>>, src: Seq<Interval<T>>) -> bool {
    &&& is_canonical(out)
    &&& same_points(out, src)
    &&& all_well_formed(src) ==> all_well_formed(out)
}

/// `out` with the end of its last interval moved to `end`.
pub open spec fn with_last_end<T: Copy + Ord>(out: Seq<Interval<T>>, end: T) -> Seq<Interval<T>>
    recommends
        out.len() > 0,
{
    out.update(out.len() - 1, Interval { start: out.last().start, end })
}

/// `out` with `x` taken in: absorbed by the last interval of `out` where it
/// starts inside it or on its boundary, and appended otherwise.
pub open spec fn taking_in<T: Copy + Ord>(out: Seq<Interval<T>>, x: Interval<T>) -> Seq<
    Interval<T>,
> {
    if out.len() > 0 && le(x.start, out.last().end) {
        with_last_end(out, max_of(out.last().end, x.end))
    } else {
        out.push(x)
    }
}

/// The intervals of `s` taken in one after the other, from none: each is
/// absorbed by the one that stands last then, or appended.
pub open spec fn absorbed<T: Copy + Ord>(s: Seq<Interval<T>>) -> Seq<Interval<T>>
    decreases s.len(),
{
    if s.len() == 0 {
        Seq::empty()
    } else {
        taking_in(absorbed(s.drop_last()), s.last())
    }
}

/// A run of consecutive intervals of a collection is sorted, canonical and
/// well formed where the collection is.
pub proof fn lemma_run_inherits<T: Copy + Ord>(s: Seq<Interval<T>>, from: int, to: int)
    requires
        0 <= from <= to <= s.len(),
    ensures
        sorted_by_start(s) ==> sorted_by_start(s.subrange(from, to)),
        separated(s) ==> separated(s.subrange(from, to)),
        is_canonical(s) ==> is_canonical(s.subrange(from, to)),
        all_well_formed(s) ==> all_well_formed(s.subrange(from, to)),
{
    let run = s.subrange(from, to);
    if sorted_by_start(s) {
        assert forall|i: int, j: int| #![trigger run[i], run[j]] 0 <= i <= j < run.len() implies le(
            run[i].start,
            run[j].start,
        ) by {
            assert(le(s[from + i].start, s[from + j].start));
        }
    }
    if separated(s) {
        assert forall|i: int, j: int| #![trigger run[i], run[j]] 0 <= i < j < run.len() implies lt(
            run[i].end,
            run[j].start,
        ) by {
            assert(lt(s[from + i].end, s[from + j].start));
        }
    }
    if all_well_formed(s) {
        assert forall|i: int| 0 <= i < run.len() implies (#[trigger] run[i]).well_formed() by {
            assert(s[from + i].well_formed());
        }
    }
}

/// Appending an interval adds its points and no others.
pub proof fn lemma_points_push<T: Copy + Ord>(s: Seq<Interval<T>>, x: Interval<T>)
    ensures
        forall|p: T| #[trigger] covered(s.push(x), p) <==> covered(s, p) || x.covers(p),
        forall|p: T| #[trigger] touched(s.push(x), p) <==> touched(s, p) || x.touches(p),
{
    let t = s.push(x);
    assert forall|p: T| #[trigger] covered(t, p) <==> covered(s, p) || x.covers(p) by {
        if covered(s, p) {
            let i = choose|i: int| 0 <= i < s.len() && (#[trigger] s[i]).covers(p);
            assert(t[i].covers(p));
        }
        if x.covers(p) {
            assert(t[s.len() as int].covers(p));
        }
        if covered(t, p) {
            let i = choose|i: int| 0 <= i < t.len() && (#[trigger] t[i]).covers(p);
            if i < s.len() {
                assert(s[i].covers(p));
            }
        }
    }
    assert forall|p: T| #[trigger] touched(t, p) <==> touched(s, p) || x.touches(p) by {
        if touched(s, p) {
            let i = choose|i: int| 0 <= i < s.len() && (#[trigger] s[i]).touches(p);
            assert(t[i].touches(p));
        }
        if x.touches(p) {
            assert(t[s.len() as int].touches(p));
        }
        if touched(t, p) {
            let i = choose|i: int| 0 <= i < t.len() && (#[trigger] t[i]).touches(p);
            if i < s.len() {
                assert(s[i].touches(p));
            }
        }
    }
}

/// The points of a concatenation are those of its two parts.
pub proof fn lemma_points_concat<T: Copy + Ord>(a: Seq<Interval<T>>, b: Seq<Interval<T>>)
    ensures
        forall|p: T| #[trigger] covered(a + b, p) <==> covered(a, p) || covered(b, p),
        forall|p: T| #[trigger] touched(a + b, p) <==> touched(a, p) || touched(b, p),
{
    let t = a + b;
    assert forall|p: T| #[trigger] covered(t, p) <==> covered(a, p) || covered(b, p) by {
        if covered(a, p) {
            let i = choose|i: int| 0 <= i < a.len() && (#[trigger] a[i]).covers(p);
            assert(t[i].covers(p));
        }
        if covered(b, p) {
            let i = choose|i: int| 0 <= i < b.len() && (#[trigger] b[i]).covers(p);
            assert(t[a.len() + i].covers(p));
        }
        if covered(t, p) {
            let i = choose|i: int| 0 <= i < t.len() && (#[trigger] t[i]).covers(p);
            if i < a.len() {
                assert(a[i].covers(p));
            } else {
                assert(b[i - a.len()].covers(p));
            }
        }
    }
    assert forall|p: T| #[trigger] touched(t, p) <==> touched(a, p) || touched(b, p) by {
        if touched(a, p) {
            let i = choose|i: int| 0 <= i < a.len() && (#[trigger] a[i]).touches(p);
            assert(t[i].touches(p));
        }
        if touched(b, p) {
            let i = choose|i: int| 0 <= i < b.len() && (#[trigger] b[i]).touches(p);
            assert(t[a.len() + i].touches(p));
        }
        if touched(t, p) {
            let i = choose|i: int| 0 <= i < t.len() && (#[trigger] t[i]).touches(p);
            if i < a.len() {
                assert(a[i].touches(p));
            } else {
                assert(b[i - a.len()].touches(p));
            }
        }
    }
}

/// Taking one more interval of `s` adds the points of that interval.
pub proof fn lemma_points_take_next<T: Copy + Ord>(s: Seq<Interval<T>>, n: int)
    requires
        0 <= n < s.len(),
    ensures
        forall|p: T| #[trigger]
            covered(s.take(n + 1), p) <==> covered(s.take(n), p) || s[n].covers(p),
        forall|p: T| #[trigger]
            touched(s.take(n + 1), p) <==> touched(s.take(n), p) || s[n].touches(p),
{
    assert(s.take(n + 1) =~= s.take(n).push(s[n]));
    lemma_points_push(s.take(n), s[n]);
}

/// An interval that starts inside the last interval of a canonical
/// collection, or on its boundary, is absorbed by widening that interval.
pub proof fn lemma_absorb<T: Copy + Ord>(out: Seq<Interval<T>>, x: Interval<T>)
    requires
        is_total_order::<T>(),
        is_canonical(out),
        out.len() > 0,
        le(out.last().start, x.start),
        le(x.start, out.last().end),
    ensures
        is_canonical(with_last_end(out, max_of(out.last().end, x.end))),
        forall|p: T| #[trigger]
            covered(with_last_end(out, max_of(out.last().end, x.end)), p) <==> covered(out, p)
                || x.covers(p),
        forall|p: T| #[trigger]
            touched(with_last_end(out, max_of(out.last().end, x.end)), p) <==> touched(out, p)
                || x.touches(p),
        all_well_formed(out) ==> all_well_formed(
            with_last_end(out, max_of(out.last().end, x.end)),
        ),
{
    lemma_total_order::<T>();
    let last = out.last();
    let n = out.len() - 1;
    let wide = Interval { start: last.start, end: max_of(last.end, x.end) };
    let t = with_last_end(out, wide.end);
    assert(t[n] == wide);
    assert(le(last.end, wide.end));
    assert(le(x.end, wide.end));
    assert(is_canonical(t)) by {
        assert forall|i: int, j: int| #![trigger t[i], t[j]] 0 <= i <= j < t.len() implies le(
            t[i].start,
            t[j].start,
        ) by {
            assert(t[i].start == out[i].start && t[j].start == out[j].start);
        }
        assert forall|i: int, j: int| #![trigger t[i], t[j]] 0 <= i < j < t.len() implies lt(
            t[i].end,
            t[j].start,
        ) by {
            assert(t[i] == out[i] && t[j].start == out[j].start);
        }
    }
    assert forall|p: T| #[trigger] covered(t, p) <==> covered(out, p) || x.covers(p) by {
        if covered(out, p) {
            let i = choose|i: int| 0 <= i < out.len() && (#[trigger] out[i]).covers(p);
            if i < n {
                assert(t[i].covers(p));
            } else {
                assert(t[n].covers(p));
            }
        }
        if x.covers(p) {
            assert(t[n].covers(p));
        }
        if covered(t, p) {
            let i = choose|i: int| 0 <= i < t.len() && (#[trigger] t[i]).covers(p);
            if i < n {
                assert(out[i].covers(p));
            } else if lt(p, last.end) {
                assert(out[n].covers(p));
            } else {
                assert(x.covers(p));
            }
        }
    }
    assert forall|p: T| #[trigger] touched(t, p) <==> touched(out, p) || x.touches(p) by {
        if touched(out, p) {
            let i = choose|i: int| 0 <= i < out.len() && (#[trigger] out[i]).touches(p);
            if i < n {
                assert(t[i].touches(p));
            } else {
                assert(t[n].touches(p));
            }
        }
        if x.touches(p) {
            assert(t[n].touches(p));
        }
        if touched(t, p) {
            let i = choose|i: int| 0 <= i < t.len() && (#[trigger] t[i]).touches(p);
            if i < n {
                assert(out[i].touches(p));
            } else if le(p, last.end) {
                assert(out[n].touches(p));
            } else {
                assert(x.touches(p));
            }
        }
    }
    if all_well_formed(out) {
        assert forall|i: int| 0 <= i < t.len() implies (#[trigger] t[i]).well_formed() by {
            if i < n {
                assert(out[i].well_formed());
            } else {
                assert(out[n].well_formed());
            }
        }
    }
}

/// An interval that starts after the last interval of a canonical collection
/// has ended is appended to it.
pub proof fn lemma_append<T: Copy + Ord>(out: Seq<Interval<T>>, x: Interval<T>)
    requires
        is_total_order::<T>(),
        is_canonical(out),
        out.len() > 0 ==> le(out.last().start, x.start) && lt(out.last().end, x.start),
    ensures
        is_canonical(out.push(x)),
        forall|p: T| #[trigger] covered(out.push(x), p) <==> covered(out, p) || x.covers(p),
        forall|p: T| #[trigger] touched(out.push(x), p) <==> touched(out, p) || x.touches(p),
        all_well_formed(out) && x.well_formed() ==> all_well_formed(out.push(x)),
{
    lemma_total_order::<T>();
    lemma_points_push(out, x);
    let t = out.push(x);
    let n = out.len() as int;
    assert forall|i: int, j: int| #![trigger t[i], t[j]] 0 <= i <= j < t.len() implies le(
        t[i].start,
        t[j].start,
    ) by {
        if j == n && i < n {
            assert(le(out[i].start, out[n - 1].start));
        }
    }
    assert forall|i: int, j: int| #![trigger t[i], t[j]] 0 <= i < j < t.len() implies lt(
        t[i].end,
        t[j].start,
    ) by {
        if j == n && i < n - 1 {
            assert(lt(out[i].end, out[n - 1].start));
        }
    }
    if all_well_formed(out) && x.well_formed() {
        assert forall|i: int| 0 <= i < t.len() implies (#[trigger] t[i]).well_formed() by {
            if i < n {
                assert(out[i].well_formed());
            }
        }
    }
}

/// The state of a merge of two collections sorted by start, of which the
/// first `ai` intervals of `a` and the first `bi` of `b` have been taken into
/// `out`: `out` is canonical and holds exactly their points, and no interval
/// still to come starts before the last interval of `out` does.
pub open spec fn merging<T: Copy + Ord>(
    out: Seq<Interval<T>>,
    a: Seq<Interval<T>>,
    ai: int,
    b: Seq<Interval<T>>,
    bi: int,
) -> bool {
    &&& 0 <= ai <= a.len()
    &&& 0 <= bi <= b.len()
    &&& is_canonical(out)
    &&& forall|p: T|
        #[trigger] covered(out, p) == (covered(a.take(ai), p) || covered(b.take(bi), p))
    &&& forall|p: T|
        #[trigger] touched(out, p) == (touched(a.take(ai), p) || touched(b.take(bi), p))
    &&& all_well_formed(a) && all_well_formed(b) ==> all_well_formed(out)
    &&& out.len() > 0 && ai < a.len() ==> le(out.last().start, a[ai].start)
    &&& out.len() > 0 && bi < b.len() ==> le(out.last().start, b[bi].start)
}

/// A merge of two collections starts with nothing taken.
pub proof fn lemma_merging_start<T: Copy + Ord>(a: Seq<Interval<T>>, b: Seq<Interval<T>>)
    ensures
        merging(Seq::<Interval<T>>::empty(), a, 0, b, 0),
{
}

/// A merge of two collections that has taken all of both has their merged
/// form.
pub proof fn lemma_merging_done<T: Copy + Ord>(
    out: Seq<Interval<T>>,
    a: Seq<Interval<T>>,
    b: Seq<Interval<T>>,
)
    requires
        merging(out, a, a.len() as int, b, b.len() as int),
    ensures
        is_merged(out, a + b),
{
    lemma_points_concat(a, b);
    assert(a.take(a.len() as int) =~= a);
    assert(b.take(b.len() as int) =~= b);
    if all_well_formed(a + b) {
        assert forall|i: int| 0 <= i < a.len() implies (#[trigger] a[i]).well_formed() by {
            assert((a + b)[i].well_formed());
        }
        assert forall|i: int| 0 <= i < b.len() implies (#[trigger] b[i]).well_formed() by {
            assert((a + b)[a.len() + i].well_formed());
        }
    }
}

/// The two collections of a merge can change places.
pub proof fn lemma_merging_swap<T: Copy + Ord>(
    out: Seq<Interval<T>>,
    a: Seq<Interval<T>>,
    ai: int,
    b: Seq<Interval<T>>,
    bi: int,
)
    requires
        merging(out, a, ai, b, bi),
    ensures
        merging(out, b, bi, a, ai),
{
}

/// In a merge of two collections, the next interval of `a` is absorbed by
/// the last interval of `out` where it starts inside it or on its boundary.
pub proof fn lemma_merging_absorb<T: Copy + Ord>(
    out: Seq<Interval<T>>,
    a: Seq<Interval<T>>,
    ai: int,
    b: Seq<Interval<T>>,
    bi: int,
)
    requires
        is_total_order::<T>(),
        sorted_by_start(a),
        sorted_by_start(b),
        merging(out, a, ai, b, bi),
        ai < a.len(),
        out.len() > 0,
        le(a[ai].start, out.last().end),
    ensures
        merging(with_last_end(out, max_of(out.last().end, a[ai].end)), a, ai + 1, b, bi),
{
    lemma_total_order::<T>();
    lemma_absorb(out, a[ai]);
    lemma_points_take_next(a, ai);
    let wide = with_last_end(out, max_of(out.last().end, a[ai].end));
    assert(wide.last().start == out.last().start);
    if ai + 1 < a.len() {
        assert(le(a[ai].start, a[ai + 1].start));
    }
    if all_well_formed(a) && all_well_formed(b) {
        assert(all_well_formed(wide));
    }
}

/// In a merge of two collections, the next interval of `a` is appended to
/// `out` where it starts after the last interval of `out` has ended and not
/// after the next interval of `b` starts.
pub proof fn lemma_merging_append<T: Copy + Ord>(
    out: Seq<Interval<T>>,
    a: Seq<Interval<T>>,
    ai: int,
    b: Seq<Interval<T>>,
    bi: int,
)
    requires
        is_total_order::<T>(),
        sorted_by_start(a),
        sorted_by_start(b),
        merging(out, a, ai, b, bi),
        ai < a.len(),
        out.len() > 0 ==> lt(out.last().end, a[ai].start),
        bi < b.len() ==> le(a[ai].start, b[bi].start),
    ensures
        merging(out.push(a[ai]), a, ai + 1, b, bi),
{
    lemma_total_order::<T>();
    lemma_append(out, a[ai]);
    lemma_points_take_next(a, ai);
    let longer = out.push(a[ai]);
    assert(longer.last() == a[ai]);
    if ai + 1 < a.len() {
        assert(le(a[ai].start, a[ai + 1].start));
    }
    if all_well_formed(a) && all_well_formed(b) {
        assert(a[ai].well_formed());
        assert(all_well_formed(longer));
    }
}

/// Two canonical collections of well-formed intervals that have the same
/// points are the same collection.
pub proof fn lemma_canonical_unique<T: Copy + Ord>(x: Seq<Interval<T>>, y: Seq<Interval<T>>)
    requires
        is_total_order::<T>(),
        is_canonical(x),
        is_canonical(y),
        all_well_formed(x),
        all_well_formed(y),
        same_points(x, y),
    ensures
        x == y,
    decreases x.len(),
{
    lemma_total_order::<T>();
    if x.len() == 0 {
        if y.len() > 0 {
            assert(y[0].well_formed());
            assert(y[0].touches(y[0].start));
            assert(touched(y, y[0].start) == touched(x, y[0].start));
        }
        assert(x =~= y);
    } else if y.len() == 0 {
        assert(x[0].well_formed());
        assert(x[0].touches(x[0].start));
        assert(touched(x, x[0].start) == touched(y, x[0].start));
    } else {
        lemma_same_head(x, y);
        lemma_same_head(y, x);
        assert(x[0] == y[0]);
        let xs = x.drop_first();
        let ys = y.drop_first();
        lemma_same_tail(x, y);
        lemma_same_tail(y, x);
        lemma_run_inherits(x, 1, x.len() as int);
        lemma_run_inherits(y, 1, y.len() as int);
        assert(xs == x.subrange(1, x.len() as int));
        assert(ys == y.subrange(1, y.len() as int));
        lemma_canonical_unique(xs, ys);
        assert(x =~= seq![x[0]] + xs);
        assert(y =~= seq![y[0]] + ys);
    }
}

/// Of two canonical collections with the same points, the first interval of
/// the one neither starts nor ends before the first interval of the other.
proof fn lemma_same_head<T: Copy + Ord>(x: Seq<Interval<T>>, y: Seq<Interval<T>>)
    requires
        is_total_order::<T>(),
        is_canonical(x),
        is_canonical(y),
        all_well_formed(x),
        all_well_formed(y),
        same_points(x, y),
        x.len() > 0,
        y.len() > 0,
    ensures
        le(y[0].start, x[0].start),
        x[0].start == y[0].start ==> le(y[0].end, x[0].end),
{
    lemma_total_order::<T>();
    assert(x[0].well_formed());
    assert(y[0].well_formed());
    assert(x[0].touches(x[0].start));
    assert(touched(x, x[0].start) == touched(y, x[0].start));
    let j = choose|j: int| 0 <= j < y.len() && (#[trigger] y[j]).touches(x[0].start);
    assert(le(y[0].start, y[j].start));
    if x[0].start == y[0].start && lt(x[0].end, y[0].end) {
        let p = x[0].end;
        assert(y[0].covers(p));
        assert(covered(y, p) == covered(x, p));
        let i = choose|i: int| 0 <= i < x.len() && (#[trigger] x[i]).covers(p);
        if i > 0 {
            assert(lt(x[0].end, x[i].start));
        }
        assert(false);
    }
}

/// Of two canonical collections with the same first interval and the same
/// points, what follows the first interval in the one has no point that what
/// follows it in the other lacks.
proof fn lemma_same_tail<T: Copy + Ord>(x: Seq<Interval<T>>, y: Seq<Interval<T>>)
    requires
        is_total_order::<T>(),
        is_canonical(x),
        is_canonical(y),
        same_points(x, y),
        x.len() > 0,
        y.len() > 0,
        x[0] == y[0],
    ensures
        forall|p: T| #[trigger] covered(x.drop_first(), p) ==> covered(y.drop_first(), p),
        forall|p: T| #[trigger] touched(x.drop_first(), p) ==> touched(y.drop_first(), p),
{
    lemma_total_order::<T>();
    let xs = x.drop_first();
    let ys = y.drop_first();
    assert forall|p: T| #[trigger] covered(xs, p) implies covered(ys, p) by {
        let i = choose|i: int| 0 <= i < xs.len() && (#[trigger] xs[i]).covers(p);
        assert(x[i + 1].covers(p));
        assert(lt(x[0].end, x[i + 1].start));
        assert(covered(x, p) == covered(y, p));
        let j = choose|j: int| 0 <= j < y.len() && (#[trigger] y[j]).covers(p);
        assert(j > 0);
        assert(ys[j - 1].covers(p));
    }
    assert forall|p: T| #[trigger] touched(xs, p) implies touched(ys, p) by {
        let i = choose|i: int| 0 <= i < xs.len() && (#[trigger] xs[i]).touches(p);
        assert(x[i + 1].touches(p));
        assert(lt(x[0].end, x[i + 1].start));
        assert(touched(x, p) == touched(y, p));
        let j = choose|j: int| 0 <= j < y.len() && (#[trigger] y[j]).touches(p);
        assert(j > 0);
        assert(ys[j - 1].touches(p));
    }
}

/// A collection of well-formed intervals has one merged form and no other.
pub proof fn lemma_merged_unique<T: Copy + Ord>(
    x: Seq<Interval<T>>,
    y: Seq<Interval<T>>,
    src: Seq<Interval<T>>,
)
    requires
        is_total_order::<T>(),
        all_well_formed(src),
        is_merged(x, src),
        is_merged(y, src),
    ensures
        x == y,
{
    lemma_canonical_unique(x, y);
}

/// Two collections that hold the same intervals, in whatever order, have the
/// same points, and the one is well formed where the other is.
pub proof fn lemma_same_intervals_same_points<T: Copy + Ord>(
    a: Seq<Interval<T>>,
    b: Seq<Interval<T>>,
)
    requires
        a.to_multiset() == b.to_multiset(),
    ensures
        same_points(a, b),
        all_well_formed(a) == all_well_formed(b),
{
    lemma_holds_intervals_of(a, b);
    lemma_holds_intervals_of(b, a);
    assert forall|p: T| #[trigger] covered(a, p) == covered(b, p) by {
        if covered(a, p) {
            let i = choose|i: int| 0 <= i < a.len() && (#[trigger] a[i]).covers(p);
            let j = choose|j: int| 0 <= j < b.len() && b[j] == a[i];
            assert(b[j].covers(p));
        }
        if covered(b, p) {
            let i = choose|i: int| 0 <= i < b.len() && (#[trigger] b[i]).covers(p);
            let j = choose|j: int| 0 <= j < a.len() && a[j] == b[i];
            assert(a[j].covers(p));
        }
    }
    assert forall|p: T| #[trigger] touched(a, p) == touched(b, p) by {
        if touched(a, p) {
            let i = choose|i: int| 0 <= i < a.len() && (#[trigger] a[i]).touches(p);
            let j = choose|j: int| 0 <= j < b.len() && b[j] == a[i];
            assert(b[j].touches(p));
        }
        if touched(b, p) {
            let i = choose|i: int| 0 <= i < b.len() && (#[trigger] b[i]).touches(p);
            let j = choose|j: int| 0 <= j < a.len() && a[j] == b[i];
            assert(a[j].touches(p));
        }
    }
    if all_well_formed(a) {
        assert forall|i: int| 0 <= i < b.len() implies (#[trigger] b[i]).well_formed() by {
            let j = choose|j: int| 0 <= j < a.len() && a[j] == b[i];
            assert(a[j].well_formed());
        }
    }
    if all_well_formed(b) {
        assert forall|i: int| 0 <= i < a.len() implies (#[trigger] a[i]).well_formed() by {
            let j = choose|j: int| 0 <= j < b.len() && b[j] == a[i];
            assert(b[j].well_formed());
        }
    }
}

/// Each interval of `a` occurs in `b`, where the two hold the same intervals.
proof fn lemma_holds_intervals_of<T: Copy + Ord>(a: Seq<Interval<T>>, b: Seq<Interval<T>>)
    requires
        a.to_multiset() == b.to_multiset(),
    ensures
        forall|i: int| 0 <= i < a.len() ==> b.contains(#[trigger] a[i]),
{
    assert forall|i: int| 0 <= i < a.len() implies b.contains(#[trigger] a[i]) by {
        assert(a.contains(a[i]));
        to_multiset_contains(a, a[i]);
        to_multiset_contains(b, a[i]);
    }
}

/// The merged form of a collection is the merged form of every collection
/// with the same points that is well formed only if the first is.
pub proof fn lemma_merged_of_same_points<T: Copy + Ord>(
    out: Seq<Interval<T>>,
    src: Seq<Interval<T>>,
    other: Seq<Interval<T>>,
)
    requires
        is_merged(out, src),
        same_points(src, other),
        all_well_formed(other) ==> all_well_formed(src),
    ensures
        is_merged(out, other),
{
    assert forall|x: T| #[trigger] covered(out, x) == covered(other, x) by {
        assert(covered(out, x) == covered(src, x));
        assert(covered(src, x) == covered(other, x));
    }
    assert forall|x: T| #[trigger] touched(out, x) == touched(other, x) by {
        assert(touched(out, x) == touched(src, x));
        assert(touched(src, x) == touched(other, x));
    }
}

/// In a canonical collection of well-formed intervals the starts ascend
/// strictly, and so do the ends.
pub proof fn lemma_canonical_ends_ascend<T: Copy + Ord>(s: Seq<Interval<T>>)
    requires
        is_total_order::<T>(),
        is_canonical(s),
        all_well_formed(s),
    ensures
        forall|i: int, j: int|
            #![trigger s[i], s[j]]
            0 <= i < j < s.len() ==> lt(s[i].end, s[j].end) && lt(s[i].start, s[j].start),
{
    lemma_total_order::<T>();
    assert forall|i: int, j: int| #![trigger s[i], s[j]] 0 <= i < j < s.len() implies lt(
        s[i].end,
        s[j].end,
    ) && lt(s[i].start, s[j].start) by {
        assert(lt(s[i].end, s[j].start));
        assert(s[i].well_formed());
        assert(s[j].well_formed());
    }
}

/// The interval that takes the place of the intervals of `old` from `pos` on,
/// `count` of them, when `new` is inserted: `new` widened to reach from the
/// start of the first of them to the end of the last.
pub open spec fn hull<T: Copy + Ord>(
    old: Seq<Interval<T>>,
    new: Interval<T>,
    pos: int,
    count: int,
) -> Interval<T> {
    if count > 0 {
        Interval {
            start: min_of(new.start, old[pos].start),
            end: max_of(new.end, old[pos + count - 1].end),
        }
    } else {
        new
    }
}

/// `old` with `count` intervals from `pos` on replaced by the one interval
/// `with`.
pub open spec fn spliced<T: Copy + Ord>(
    old: Seq<Interval<T>>,
    pos: int,
    count: int,
    with: Interval<T>,
) -> Seq<Interval<T>> {
    old.take(pos).push(with) + old.skip(pos + count)
}

/// The intervals of `old` from `pos` on, `count` of them, are those that
/// `new` reaches: all before them end before `new` starts, all after them
/// start after `new` has ended, and `new` overlaps or touches each of them.
pub open spec fn is_reach_of<T: Copy + Ord>(
    old: Seq<Interval<T>>,
    new: Interval<T>,
    pos: int,
    count: int,
) -> bool {
    &&& 0 <= pos
    &&& 0 <= count
    &&& pos + count <= old.len()
    &&& forall|i: int| 0 <= i < pos ==> lt((#[trigger] old[i]).end, new.start)
    &&& forall|i: int|
        pos <= i < pos + count ==> le(new.start, (#[trigger] old[i]).end) && le(
            old[i].start,
            new.end,
        )
    &&& forall|i: int| pos + count <= i < old.len() ==> lt(new.end, (#[trigger] old[i]).start)
}

/// Replacing the intervals that a new interval reaches by their hull gives
/// the merged form of the collection with the new interval added.
pub proof fn lemma_insert_by_splice<T: Copy + Ord>(
    old: Seq<Interval<T>>,
    new: Interval<T>,
    pos: int,
    count: int,
)
    requires
        is_total_order::<T>(),
        is_canonical(old),
        all_well_formed(old),
        new.well_formed(),
        is_reach_of(old, new, pos, count),
    ensures
        is_merged(spliced(old, pos, count, hull(old, new, pos, count)), old.push(new)),
{
    lemma_total_order::<T>();
    lemma_canonical_ends_ascend(old);
    lemma_points_push(old, new);
    let wide = hull(old, new, pos, count);
    let out = spliced(old, pos, count, wide);
    let shift = count - 1;
    assert(out.len() == old.len() - shift);
    assert forall|i: int| 0 <= i < pos implies #[trigger] out[i] == old[i] by {}
    assert(out[pos] == wide);
    assert forall|i: int| pos < i < out.len() implies #[trigger] out[i] == old[i + shift] by {}
    assert(le(wide.start, new.start) && le(new.end, wide.end));
    assert(wide.well_formed());
    if count > 0 {
        assert(old[pos].well_formed());
        assert(old[pos + count - 1].well_formed());
        assert(le(wide.start, old[pos].start));
        assert(le(old[pos + count - 1].end, wide.end));
    }
    assert forall|i: int| 0 <= i < pos implies lt((#[trigger] old[i]).end, wide.start) by {
        if count > 0 {
            assert(lt(old[i].end, old[pos].start));
        }
    }
    assert forall|i: int| pos + count <= i < old.len() implies lt(
        wide.end,
        (#[trigger] old[i]).start,
    ) by {
        if count > 0 {
            assert(lt(old[pos + count - 1].end, old[i].start));
        }
    }
    assert(all_well_formed(out)) by {
        assert forall|i: int| 0 <= i < out.len() implies (#[trigger] out[i]).well_formed() by {
            if i < pos {
                assert(old[i].well_formed());
            } else if i > pos {
                assert(old[i + shift].well_formed());
            }
        }
    }
    assert(separated(out)) by {
        assert forall|i: int, j: int| #![trigger out[i], out[j]] 0 <= i < j < out.len() implies lt(
            out[i].end,
            out[j].start,
        ) by {
            if j < pos {
                assert(lt(old[i].end, old[j].start));
            } else if j == pos {
                assert(lt(old[i].end, wide.start));
            } else if i < pos {
                assert(lt(old[i].end, old[j + shift].start));
            } else if i == pos {
                assert(lt(wide.end, old[j + shift].start));
            } else {
                assert(lt(old[i + shift].end, old[j + shift].start));
            }
        }
    }
    assert(sorted_by_start(out)) by {
        assert forall|i: int, j: int| #![trigger out[i], out[j]] 0 <= i <= j < out.len() implies le(
            out[i].start,
            out[j].start,
        ) by {
            if i < j {
                assert(lt(out[i].end, out[j].start));
                assert(out[i].well_formed());
            }
        }
    }
    assert forall|p: T| #[trigger] covered(out, p) == (covered(old, p) || new.covers(p)) by {
        if covered(out, p) {
            let i = choose|i: int| 0 <= i < out.len() && (#[trigger] out[i]).covers(p);
            if i < pos {
                assert(old[i].covers(p));
            } else if i > pos {
                assert(old[i + shift].covers(p));
            } else if !new.covers(p) {
                if lt(p, new.start) {
                    assert(old[pos].covers(p));
                } else {
                    assert(old[pos + count - 1].covers(p));
                }
            }
        }
        if new.covers(p) {
            assert(out[pos].covers(p));
        }
        if covered(old, p) {
            let i = choose|i: int| 0 <= i < old.len() && (#[trigger] old[i]).covers(p);
            if i < pos {
                assert(out[i].covers(p));
            } else if i >= pos + count {
                assert(out[i - shift].covers(p));
            } else {
                if pos < i {
                    assert(lt(old[pos].start, old[i].start));
                }
                if i < pos + count - 1 {
                    assert(lt(old[i].end, old[pos + count - 1].end));
                }
                assert(out[pos].covers(p));
            }
        }
    }
    assert forall|p: T| #[trigger] touched(out, p) == (touched(old, p) || new.touches(p)) by {
        if touched(out, p) {
            let i = choose|i: int| 0 <= i < out.len() && (#[trigger] out[i]).touches(p);
            if i < pos {
                assert(old[i].touches(p));
            } else if i > pos {
                assert(old[i + shift].touches(p));
            } else if !new.touches(p) {
                if lt(p, new.start) {
                    assert(old[pos].touches(p));
                } else {
                    assert(old[pos + count - 1].touches(p));
                }
            }
        }
        if new.touches(p) {
            assert(out[pos].touches(p));
        }
        if touched(old, p) {
            let i = choose|i: int| 0 <= i < old.len() && (#[trigger] old[i]).touches(p);
            if i < pos {
                assert(out[i].touches(p));
            } else if i >= pos + count {
                assert(out[i - shift].touches(p));
            } else {
                if pos < i {
                    assert(lt(old[pos].start, old[i].start));
                }
                if i < pos + count - 1 {
                    assert(lt(old[i].end, old[pos + count - 1].end));
                }
                assert(out[pos].touches(p));
            }
        }
    }
}

/// The last interval of a collection sorted by start that has started at
/// `p`, where the one at `known` has.
pub proof fn lemma_last_started<T: Copy + Ord>(s: Seq<Interval<T>>, p: T, known: int) -> (last: int)
    requires
        is_total_order::<T>(),
        sorted_by_start(s),
        0 <= known < s.len(),
        le(s[known].start, p),
    ensures
        known <= last < s.len(),
        le(s[last].start, p),
        forall|j: int| last < j < s.len() ==> lt(p, (#[trigger] s[j]).start),
    decreases s.len() - known,
{
    lemma_total_order::<T>();
    if known + 1 < s.len() && le(s[known + 1].start, p) {
        lemma_last_started(s, p, known + 1)
    } else {
        assert forall|j: int| known < j < s.len() implies lt(p, (#[trigger] s[j]).start) by {
            assert(le(s[known + 1].start, s[j].start));
        }
        known
    }
}

/// Each interval of `s` but the first starts inside the one before it or on
/// its boundary, and ends no earlier than it.
pub open spec fn is_chain<T: Copy + Ord>(s: Seq<Interval<T>>) -> bool {
    forall|i: int|
        0 <= i < s.len() - 1 ==> le(s[i + 1].start, (#[trigger] s[i]).end) && le(
            s[i].end,
            s[i + 1].end,
        )
}

/// A chain of well-formed intervals, sorted by start, merges into the one
/// interval from the start of the first to the end of the last.
pub proof fn lemma_chain_merges_into_one<T: Copy + Ord>(s: Seq<Interval<T>>)
    requires
        is_total_order::<T>(),
        sorted_by_start(s),
        all_well_formed(s),
        is_chain(s),
        s.len() > 0,
    ensures
        is_merged(seq![Interval { start: s[0].start, end: s.last().end }], s),
{
    lemma_total_order::<T>();
    let n = s.len() - 1;
    let whole = Interval { start: s[0].start, end: s[n].end };
    let out = seq![whole];
    assert(out[0] == whole);
    assert forall|i: int| 0 <= i <= n implies le((#[trigger] s[i]).end, s[n].end) by {
        lemma_chain_ends_ascend(s, i, n);
    }
    assert(s[0].well_formed());
    assert(whole.well_formed());
    assert forall|p: T| #[trigger] covered(out, p) == covered(s, p) by {
        if covered(out, p) {
            assert(out[0].covers(p));
            let i = lemma_last_started(s, p, 0);
            if i < n {
                assert(lt(p, s[i + 1].start));
                assert(le(s[i + 1].start, s[i].end));
            }
            assert(s[i].covers(p));
        }
        if covered(s, p) {
            let i = choose|i: int| 0 <= i < s.len() && (#[trigger] s[i]).covers(p);
            assert(le(s[0].start, s[i].start));
            assert(le(s[i].end, s[n].end));
            assert(out[0].covers(p));
        }
    }
    assert forall|p: T| #[trigger] touched(out, p) == touched(s, p) by {
        if touched(out, p) {
            assert(out[0].touches(p));
            let i = lemma_last_started(s, p, 0);
            if i < n {
                assert(lt(p, s[i + 1].start));
                assert(le(s[i + 1].start, s[i].end));
            }
            assert(s[i].touches(p));
        }
        if touched(s, p) {
            let i = choose|i: int| 0 <= i < s.len() && (#[trigger] s[i]).touches(p);
            assert(le(s[0].start, s[i].start));
            assert(le(s[i].end, s[n].end));
            assert(out[0].touches(p));
        }
    }
}

/// In a chain no interval ends before an earlier one.
proof fn lemma_chain_ends_ascend<T: Copy + Ord>(s: Seq<Interval<T>>, i: int, j: int)
    requires
        is_total_order::<T>(),
        is_chain(s),
        0 <= i <= j < s.len(),
    ensures
        le(s[i].end, s[j].end),
    decreases j - i,
{
    lemma_total_order::<T>();
    if i < j {
        lemma_chain_ends_ascend(s, i, j - 1);
        assert(le(s[j - 1].end, s[j].end));
    }
}

/// A merged form is its own merged form: merging it again changes nothing.
pub proof fn lemma_merged_is_fixed<T: Copy + Ord>(out: Seq<Interval<T>>, src: Seq<Interval<T>>)
    requires
        is_merged(out, src),
    ensures
        is_merged(out, out),
{
}

/// The merged form of two collections taken together does not depend on
/// which of them is taken first.
pub proof fn lemma_merge_is_symmetric<T: Copy + Ord>(
    x: Seq<Interval<T>>,
    y: Seq<Interval<T>>,
    a: Seq<Interval<T>>,
    b: Seq<Interval<T>>,
)
    requires
        is_total_order::<T>(),
        all_well_formed(a),
        all_well_formed(b),
        is_merged(x, a + b),
        is_merged(y, b + a),
    ensures
        x == y,
{
    lemma_points_concat(a, b);
    lemma_points_concat(b, a);
    let ab = a + b;
    let ba = b + a;
    assert(all_well_formed(ab)) by {
        assert forall|i: int| 0 <= i < ab.len() implies (#[trigger] ab[i]).well_formed() by {
            if i < a.len() {
                assert(a[i].well_formed());
            } else {
                assert(b[i - a.len()].well_formed());
            }
        }
    }
    assert(all_well_formed(ba)) by {
        assert forall|i: int| 0 <= i < ba.len() implies (#[trigger] ba[i]).well_formed() by {
            if i < b.len() {
                assert(b[i].well_formed());
            } else {
                assert(a[i - b.len()].well_formed());
            }
        }
    }
    assert forall|p: T| #[trigger] covered(x, p) == covered(y, p) by {
        assert(covered(x, p) == covered(ab, p));
        assert(covered(y, p) == covered(ba, p));
    }
    assert forall|p: T| #[trigger] touched(x, p) == touched(y, p) by {
        assert(touched(x, p) == touched(ab, p));
        assert(touched(y, p) == touched(ba, p));
    }
    lemma_canonical_unique(x, y);
}

} // verus!
