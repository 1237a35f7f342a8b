//! Intersecting canonical collections.

use crate::intervals::many::{covered_by_each, each_canonical, views_of};
use crate::intervals::model::{
    all_well_formed, covered, is_canonical, lemma_canonical_ends_ascend, lemma_run_inherits,
};
use crate::intervals::Interval;
use crate::order::{
    at_most, below, is_total_order, larger, le, lemma_total_order, lt, max_of, min_of, smaller,
};
use vstd::prelude::*;

verus! {

/// `x` and `y` share some extent: neither has ended where the other starts.
/// Two intervals that share only a boundary point do not cross.
pub open spec fn crossing<T: Copy + Ord>(x: Interval<T>, y: Interval<T>) -> bool {
    lt(x.start, y.end) && lt(y.start, x.end)
}

/// The interval that `x` and `y` share: from the later start to the earlier
/// end.
pub open spec fn meet<T: Copy + Ord>(x: Interval<T>, y: Interval<T>) -> Interval<T> {
    Interval { start: max_of(x.start, y.start), end: min_of(x.end, y.end) }
}

/// `x` is what some interval of `a` and some interval of `b` that cross each
/// other share.
pub open spec fn is_meet_within<T: Copy + Ord>(
    x: Interval<T>,
    a: Seq<Interval<T>>,
    b: Seq<Interval<T>>,
) -> bool {
    exists|i: int, j: int|
        #![trigger a[i], b[j]]
        0 <= i < a.len() && 0 <= j < b.len() && crossing(a[i], b[j]) && x == meet(a[i], b[j])
}

/// `out` is the intersection of `a` and `b`: canonical and well formed, and
/// made of what each interval of `a` shares with each interval of `b` that
/// it crosses, and of nothing else.
pub open spec fn is_intersection<T: Copy + Ord>(
    out: Seq<Interval<T>>,
    a: Seq<Interval<T>>,
    b: Seq<Interval<T>>,
) -> bool {
    &&& is_canonical(out)
    &&& all_well_formed(out)
    &&& forall|k: int| 0 <= k < out.len() ==> is_meet_within(#[trigger] out[k], a, b)
    &&& forall|i: int, j: int|
        #![trigger a[i], b[j]]
        0 <= i < a.len() && 0 <= j < b.len() && crossing(a[i], b[j]) ==> out.contains(
            meet(a[i], b[j]),
        )
}

/// An intersection covers the points that both collections cover, and no
/// others.
pub proof fn lemma_intersection_points<T: Copy + Ord>(
    out: Seq<Interval<T>>,
    a: Seq<Interval<T>>,
    b: Seq<Interval<T>>,
)
    requires
        is_total_order::<T>(),
        is_intersection(out, a, b),
    ensures
        forall|p: T| #[trigger] covered(out, p) == (covered(a, p) && covered(b, p)),
{
    lemma_total_order::<T>();
    assert forall|p: T| #[trigger] covered(out, p) == (covered(a, p) && covered(b, p)) by {
        if covered(out, p) {
            let k = choose|k: int| 0 <= k < out.len() && (#[trigger] out[k]).covers(p);
            assert(is_meet_within(out[k], a, b));
            let (i, j) = choose|i: int, j: int|
                #![trigger a[i], b[j]]
                0 <= i < a.len() && 0 <= j < b.len() && crossing(a[i], b[j]) && out[k] == meet(
                    a[i],
                    b[j],
                );
            assert(a[i].covers(p));
            assert(b[j].covers(p));
        }
        if covered(a, p) && covered(b, p) {
            let i = choose|i: int| 0 <= i < a.len() && (#[trigger] a[i]).covers(p);
            let j = choose|j: int| 0 <= j < b.len() && (#[trigger] b[j]).covers(p);
            assert(crossing(a[i], b[j]));
            let shared = meet(a[i], b[j]);
            assert(out.contains(shared));
            let k = choose|k: int| 0 <= k < out.len() && out[k] == shared;
            assert(out[k].covers(p));
        }
    }
}

/// Two collections have one intersection and no other.
pub proof fn lemma_intersection_unique<T: Copy + Ord>(
    x: Seq<Interval<T>>,
    y: Seq<Interval<T>>,
    a: Seq<Interval<T>>,
    b: Seq<Interval<T>>,
)
    requires
        is_total_order::<T>(),
        is_intersection(x, a, b),
        is_intersection(y, a, b),
    ensures
        x == y,
{
    lemma_holds_meets_of(x, y, a, b);
    lemma_holds_meets_of(y, x, a, b);
    lemma_canonical_same_intervals(x, y);
}

/// The intersection of two collections does not depend on which of them is
/// taken first.
pub proof fn lemma_intersection_is_symmetric<T: Copy + Ord>(
    x: Seq<Interval<T>>,
    y: Seq<Interval<T>>,
    a: Seq<Interval<T>>,
    b: Seq<Interval<T>>,
)
    requires
        is_total_order::<T>(),
        is_intersection(x, a, b),
        is_intersection(y, b, a),
    ensures
        x == y,
{
    lemma_total_order::<T>();
    assert forall|i: int, j: int| #![trigger a[i], b[j]] crossing(a[i], b[j]) == crossing(
        b[j],
        a[i],
    ) && meet(a[i], b[j]) == meet(b[j], a[i]) by {}
    assert(is_intersection(y, a, b)) by {
        assert forall|k: int| 0 <= k < y.len() implies is_meet_within(#[trigger] y[k], a, b) by {
            assert(is_meet_within(y[k], b, a));
            let (j, i) = choose|j: int, i: int|
                #![trigger b[j], a[i]]
                0 <= j < b.len() && 0 <= i < a.len() && crossing(b[j], a[i]) && y[k] == meet(
                    b[j],
                    a[i],
                );
            assert(crossing(a[i], b[j]) && y[k] == meet(a[i], b[j]));
        }
        assert forall|i: int, j: int|
            #![trigger a[i], b[j]]
            0 <= i < a.len() && 0 <= j < b.len() && crossing(a[i], b[j]) implies y.contains(
            meet(a[i], b[j]),
        ) by {
            assert(crossing(b[j], a[i]));
            assert(y.contains(meet(b[j], a[i])));
        }
    }
    lemma_intersection_unique(x, y, a, b);
}

/// Each interval of one intersection occurs in every other.
proof fn lemma_holds_meets_of<T: Copy + Ord>(
    x: Seq<Interval<T>>,
    y: Seq<Interval<T>>,
    a: Seq<Interval<T>>,
    b: Seq<Interval<T>>,
)
    requires
        is_intersection(x, a, b),
        is_intersection(y, a, b),
    ensures
        forall|k: int| 0 <= k < x.len() ==> y.contains(#[trigger] x[k]),
{
    assert forall|k: int| 0 <= k < x.len() implies y.contains(#[trigger] x[k]) by {
        assert(is_meet_within(x[k], a, b));
        let (i, j) = choose|i: int, j: int|
            #![trigger a[i], b[j]]
            0 <= i < a.len() && 0 <= j < b.len() && crossing(a[i], b[j]) && x[k] == meet(
                a[i],
                b[j],
            );
        assert(y.contains(meet(a[i], b[j])));
    }
}

/// Two canonical collections of well-formed intervals in which the same
/// intervals occur are the same collection.
proof fn lemma_canonical_same_intervals<T: Copy + Ord>(x: Seq<Interval<T>>, y: Seq<Interval<T>>)
    requires
        is_total_order::<T>(),
        is_canonical(x),
        is_canonical(y),
        all_well_formed(x),
        all_well_formed(y),
        forall|k: int| 0 <= k < x.len() ==> y.contains(#[trigger] x[k]),
        forall|k: int| 0 <= k < y.len() ==> x.contains(#[trigger] y[k]),
    ensures
        x == y,
    decreases x.len(),
{
    lemma_total_order::<T>();
    lemma_canonical_ends_ascend(x);
    lemma_canonical_ends_ascend(y);
    if x.len() == 0 {
        if y.len() > 0 {
            assert(x.contains(y[0]));
        }
        assert(x =~= y);
    } else if y.len() == 0 {
        assert(y.contains(x[0]));
    } else {
        let n = x.len() - 1;
        let m = y.len() - 1;
        assert(y.contains(x[n]));
        assert(x.contains(y[m]));
        let j = choose|j: int| 0 <= j < y.len() && y[j] == x[n];
        let i = choose|i: int| 0 <= i < x.len() && x[i] == y[m];
        if j < m {
            assert(lt(y[j].start, y[m].start));
            if i < n {
                assert(lt(x[i].start, x[n].start));
            }
            assert(false);
        }
        assert(x[n] == y[m]);
        let xs = x.drop_last();
        let ys = y.drop_last();
        assert forall|k: int| 0 <= k < xs.len() implies ys.contains(#[trigger] xs[k]) by {
            assert(y.contains(x[k]));
            let q = choose|q: int| 0 <= q < y.len() && y[q] == x[k];
            assert(lt(x[k].start, x[n].start));
            assert(q < m);
            assert(ys[q] == xs[k]);
        }
        assert forall|k: int| 0 <= k < ys.len() implies xs.contains(#[trigger] ys[k]) by {
            assert(x.contains(y[k]));
            let q = choose|q: int| 0 <= q < x.len() && x[q] == y[k];
            assert(lt(y[k].start, y[m].start));
            assert(q < n);
            assert(xs[q] == ys[k]);
        }
        lemma_run_inherits(x, 0, n);
        lemma_run_inherits(y, 0, m);
        assert(xs == x.subrange(0, n));
        assert(ys == y.subrange(0, m));
        lemma_canonical_same_intervals(xs, ys);
        assert(x =~= xs.push(x[n]));
        assert(y =~= ys.push(y[m]));
    }
}

/// The state of an intersection of two canonical collections that has dealt
/// with the first `ai` intervals of `a` and the first `bi` of `b`.
spec fn intersecting<T: Copy + Ord>(
    out: Seq<Interval<T>>,
    a: Seq<Interval<T>>,
    ai: int,
    b: Seq<Interval<T>>,
    bi: int,
) -> bool {
    &&& 0 <= ai <= a.len()
    &&& 0 <= bi <= b.len()
    &&& is_canonical(out)
    &&& all_well_formed(out)
    &&& forall|k: int| 0 <= k < out.len() ==> is_meet_within(#[trigger] out[k], a, b)
    &&& forall|i: int, j: int|
        #![trigger a[i], b[j]]
        0 <= i < a.len() && 0 <= j < b.len() && (i < ai || j < bi) && crossing(a[i], b[j])
            ==> out.contains(meet(a[i], b[j]))
    &&& out.len() > 0 ==> (ai < a.len() && lt(out.last().end, a[ai].start)) || (bi < b.len() && lt(
        out.last().end,
        b[bi].start,
    )) || ai == a.len() || bi == b.len()
}

/// Intersects two canonical collections: the result holds, in ascending
/// order, what each interval of `a` shares with each interval of `b` that it
/// crosses. Intervals that share only a boundary point give nothing.
///
/// On canonical collections of well-formed intervals the result is their
/// intersection, which covers the points that both cover and no others.
pub fn intersection_2_interval_iters<T>(a: &Vec<Interval<T>>, b: &Vec<Interval<T>>) -> (output:
    Vec<Interval<T>>) where T: Copy + Ord
    ensures
        is_total_order::<T>() && is_canonical(a@) && is_canonical(b@) && all_well_formed(a@)
            && all_well_formed(b@) ==> {
            &&& is_intersection(output@, a@, b@)
            &&& forall|p: T| #[trigger] covered(output@, p) == (covered(a@, p) && covered(b@, p))
        },
{
    let ghost ordered = is_total_order::<T>() && is_canonical(a@) && is_canonical(b@)
        && all_well_formed(a@) && all_well_formed(b@);
    let mut output: Vec<Interval<T>> = Vec::new();
    let mut ai: usize = 0;
    let mut bi: usize = 0;
    while ai < a.len() && bi < b.len()
        invariant
            ai <= a.len(),
            bi <= b.len(),
            ordered == (is_total_order::<T>() && is_canonical(a@) && is_canonical(b@)
                && all_well_formed(a@) && all_well_formed(b@)),
            ordered ==> intersecting(output@, a@, ai as int, b@, bi as int),
        decreases a.len() - ai + b.len() - bi,
    {
        let from_a = a[ai];
        let from_b = b[bi];
        let ghost before = output@;
        proof {
            if ordered {
                lemma_total_order::<T>();
                lemma_canonical_ends_ascend(a@);
                lemma_canonical_ends_ascend(b@);
                assert(a@[ai as int].well_formed());
                assert(b@[bi as int].well_formed());
            }
        }
        if at_most(&from_a.end, &from_b.start) {
            proof {
                if ordered {
                    assert forall|i: int, j: int|
                        #![trigger a@[i], b@[j]]
                        0 <= i < a@.len() && 0 <= j < b@.len() && (i < ai + 1 || j < bi)
                            && crossing(a@[i], b@[j]) implies before.contains(
                        meet(a@[i], b@[j]),
                    ) by {
                        if i == ai && j >= bi {
                            if j > bi {
                                assert(lt(b@[bi as int].start, b@[j].start));
                            }
                            assert(false);
                        }
                    }
                    if ai + 1 < a@.len() {
                        assert(lt(a@[ai as int].start, a@[ai + 1].start));
                    }
                }
            }
            ai += 1;
        } else if at_most(&from_b.end, &from_a.start) {
            proof {
                if ordered {
                    assert forall|i: int, j: int|
                        #![trigger a@[i], b@[j]]
                        0 <= i < a@.len() && 0 <= j < b@.len() && (i < ai || j < bi + 1)
                            && crossing(a@[i], b@[j]) implies before.contains(
                        meet(a@[i], b@[j]),
                    ) by {
                        if j == bi && i >= ai {
                            if i > ai {
                                assert(lt(a@[ai as int].start, a@[i].start));
                            }
                            assert(false);
                        }
                    }
                    if bi + 1 < b@.len() {
                        assert(lt(b@[bi as int].start, b@[bi + 1].start));
                    }
                }
            }
            bi += 1;
        } else {
            let shared = Interval {
                start: larger(from_a.start, from_b.start),
                end: smaller(from_a.end, from_b.end),
            };
            output.push(shared);
            let a_ends_first = below(&from_a.end, &from_b.end);
            proof {
                if ordered {
                    assert(crossing(a@[ai as int], b@[bi as int]));
                    assert(shared == meet(a@[ai as int], b@[bi as int]));
                    assert(shared.well_formed());
                    assert(output@[before.len() as int] == shared);
                    assert forall|k: int| 0 <= k < output@.len() implies is_meet_within(
                        #[trigger] output@[k],
                        a@,
                        b@,
                    ) by {
                        if k < before.len() {
                            assert(is_meet_within(before[k], a@, b@));
                        }
                    }
                    assert forall|k: int| 0 <= k < before.len() implies lt(
                        (#[trigger] before[k]).end,
                        shared.start,
                    ) && le(before[k].start, shared.start) by {
                        assert(before[k].well_formed());
                        if k < before.len() - 1 {
                            assert(lt(before[k].end, before[before.len() - 1].start));
                            assert(before[before.len() - 1].well_formed());
                        }
                    }
                    assert(is_canonical(output@)) by {
                        assert forall|p: int, q: int|
                            #![trigger output@[p], output@[q]]
                            0 <= p <= q < output@.len() implies le(
                            output@[p].start,
                            output@[q].start,
                        ) by {
                            if q < before.len() {
                                assert(le(before[p].start, before[q].start));
                            } else if p < before.len() {
                                assert(le(before[p].start, shared.start));
                            }
                        }
                        assert forall|p: int, q: int|
                            #![trigger output@[p], output@[q]]
                            0 <= p < q < output@.len() implies lt(
                            output@[p].end,
                            output@[q].start,
                        ) by {
                            if q < before.len() {
                                assert(lt(before[p].end, before[q].start));
                            } else {
                                assert(lt(before[p].end, shared.start));
                            }
                        }
                    }
                    assert(all_well_formed(output@)) by {
                        assert forall|k: int| 0 <= k < output@.len() implies (
                        #[trigger] output@[k]).well_formed() by {
                            if k < before.len() {
                                assert(before[k].well_formed());
                            }
                        }
                    }
                    let next_ai = if a_ends_first {
                        ai + 1
                    } else {
                        ai as int
                    };
                    let next_bi = if a_ends_first {
                        bi as int
                    } else {
                        bi + 1
                    };
                    assert forall|i: int, j: int|
                        #![trigger a@[i], b@[j]]
                        0 <= i < a@.len() && 0 <= j < b@.len() && (i < next_ai || j < next_bi)
                            && crossing(a@[i], b@[j]) implies output@.contains(
                        meet(a@[i], b@[j]),
                    ) by {
                        if i < ai || j < bi {
                            assert(before.contains(meet(a@[i], b@[j])));
                            let k = choose|k: int|
                                0 <= k < before.len() && before[k] == meet(a@[i], b@[j]);
                            assert(output@[k] == meet(a@[i], b@[j]));
                        } else if i == ai && j == bi {
                            assert(output@[before.len() as int] == meet(a@[i], b@[j]));
                        } else if a_ends_first {
                            assert(lt(b@[bi as int].end, b@[j].end));
                            assert(lt(b@[bi as int].start, b@[j].start));
                            assert(is_canonical(b@));
                            assert(lt(b@[bi as int].end, b@[j].start));
                            assert(false);
                        } else {
                            assert(is_canonical(a@));
                            assert(lt(a@[ai as int].end, a@[i].start));
                            assert(false);
                        }
                    }
                    if a_ends_first {
                        if ai + 1 < a@.len() {
                            assert(lt(a@[ai as int].end, a@[ai + 1].start));
                        }
                    } else {
                        if bi + 1 < b@.len() {
                            assert(lt(b@[bi as int].end, b@[bi + 1].start));
                        }
                    }
                }
            }
            if a_ends_first {
                ai += 1;
            } else {
                bi += 1;
            }
        }
    }
    proof {
        if ordered {
            assert(is_intersection(output@, a@, b@));
            lemma_intersection_points(output@, a@, b@);
        }
    }
    output
}

/// `steps` holds the intersections of growing runs of `srcs`: first the
/// first collection itself, then at each place the intersection of what
/// stands before it with the collection of `srcs` at that place.
pub open spec fn is_intersection_chain<T: Copy + Ord>(
    steps: Seq<Seq<Interval<T>>>,
    srcs: Seq<Seq<Interval<T>>>,
) -> bool {
    &&& steps.len() == srcs.len()
    &&& srcs.len() > 0 ==> steps[0] == srcs[0]
    &&& forall|j: int|
        1 <= j < srcs.len() ==> is_intersection(#[trigger] steps[j], steps[j - 1], srcs[j])
}

/// `out` is the intersection of all collections of `srcs`: of none the empty
/// collection, of one that collection, and of more the intersection of the
/// last with the intersection of those before it.
pub open spec fn is_intersection_of_all<T: Copy + Ord>(
    out: Seq<Interval<T>>,
    srcs: Seq<Seq<Interval<T>>>,
) -> bool {
    if srcs.len() == 0 {
        out == Seq::<Interval<T>>::empty()
    } else {
        exists|steps: Seq<Seq<Interval<T>>>|
            #[trigger] is_intersection_chain(steps, srcs) && out == steps.last()
    }
}

/// Each intersection in a chain over canonical collections is canonical and
/// covers the points that all collections up to its place cover, and no
/// others.
proof fn lemma_chain_points<T: Copy + Ord>(
    steps: Seq<Seq<Interval<T>>>,
    srcs: Seq<Seq<Interval<T>>>,
    j: int,
)
    requires
        is_total_order::<T>(),
        each_canonical(srcs),
        is_intersection_chain(steps, srcs),
        0 <= j < srcs.len(),
    ensures
        is_canonical(steps[j]),
        all_well_formed(steps[j]),
        forall|p: T| #[trigger] covered(steps[j], p) == covered_by_each(srcs.take(j + 1), p),
    decreases j,
{
    let upto = srcs.take(j + 1);
    assert(is_canonical(srcs[j]) && all_well_formed(srcs[j]));
    if j == 0 {
        assert forall|p: T| #[trigger] covered(steps[j], p) == covered_by_each(upto, p) by {
            if covered_by_each(upto, p) {
                assert(covered(upto[0], p));
            }
        }
    } else {
        lemma_chain_points(steps, srcs, j - 1);
        assert(is_intersection(steps[j], steps[j - 1], srcs[j]));
        lemma_intersection_points(steps[j], steps[j - 1], srcs[j]);
        let before = srcs.take(j);
        assert forall|p: T| #[trigger] covered(steps[j], p) == covered_by_each(upto, p) by {
            assert(covered(steps[j - 1], p) == covered_by_each(before, p));
            if covered_by_each(upto, p) {
                assert forall|q: int| 0 <= q < before.len() implies covered(
                    #[trigger] before[q],
                    p,
                ) by {
                    assert(covered(upto[q], p));
                }
                assert(covered(upto[j], p));
            }
            if covered(steps[j], p) {
                assert forall|q: int|
                    0 <= q < upto.len() implies covered(#[trigger] upto[q], p) by {
                    if q < j {
                        assert(covered(before[q], p));
                    }
                }
            }
        }
    }
}

/// Two chains of intersections over the same collections are the same.
proof fn lemma_chain_unique<T: Copy + Ord>(
    x: Seq<Seq<Interval<T>>>,
    y: Seq<Seq<Interval<T>>>,
    srcs: Seq<Seq<Interval<T>>>,
    j: int,
)
    requires
        is_total_order::<T>(),
        is_intersection_chain(x, srcs),
        is_intersection_chain(y, srcs),
        0 <= j < srcs.len(),
    ensures
        x[j] == y[j],
    decreases j,
{
    if j > 0 {
        lemma_chain_unique(x, y, srcs, j - 1);
        assert(is_intersection(x[j], x[j - 1], srcs[j]));
        assert(is_intersection(y[j], y[j - 1], srcs[j]));
        lemma_intersection_unique(x[j], y[j], x[j - 1], srcs[j]);
    }
}

/// The intersection of canonical collections is canonical and covers the
/// points that all of them cover, and no others.
pub proof fn lemma_intersection_of_all_points<T: Copy + Ord>(
    out: Seq<Interval<T>>,
    srcs: Seq<Seq<Interval<T>>>,
)
    requires
        is_total_order::<T>(),
        each_canonical(srcs),
        is_intersection_of_all(out, srcs),
    ensures
        is_canonical(out),
        all_well_formed(out),
        forall|p: T| #[trigger] covered(out, p) == (srcs.len() > 0 && covered_by_each(srcs, p)),
{
    if srcs.len() > 0 {
        let steps = choose|steps: Seq<Seq<Interval<T>>>|
            #[trigger] is_intersection_chain(steps, srcs) && out == steps.last();
        lemma_chain_points(steps, srcs, srcs.len() - 1);
        assert(srcs.take(srcs.len() as int) =~= srcs);
    }
}

/// Any number of collections have one intersection and no other.
pub proof fn lemma_intersection_of_all_unique<T: Copy + Ord>(
    x: Seq<Interval<T>>,
    y: Seq<Interval<T>>,
    srcs: Seq<Seq<Interval<T>>>,
)
    requires
        is_total_order::<T>(),
        is_intersection_of_all(x, srcs),
        is_intersection_of_all(y, srcs),
    ensures
        x == y,
{
    if srcs.len() > 0 {
        let steps_x = choose|steps: Seq<Seq<Interval<T>>>|
            #[trigger] is_intersection_chain(steps, srcs) && x == steps.last();
        let steps_y = choose|steps: Seq<Seq<Interval<T>>>|
            #[trigger] is_intersection_chain(steps, srcs) && y == steps.last();
        lemma_chain_unique(steps_x, steps_y, srcs, srcs.len() - 1);
    }
}

/// A copy of a collection.
fn copy_of<T>(v: &Vec<Interval<T>>) -> (copy: Vec<Interval<T>>) where T: Copy + Ord
    ensures
        copy@ == v@,
{
    let mut copy: Vec<Interval<T>> = Vec::with_capacity(v.len());
    let mut i: usize = 0;
    while i < v.len()
        invariant
            i <= v@.len(),
            copy@ == v@.take(i as int),
        decreases v@.len() - i,
    {
        copy.push(v[i]);
        proof {
            assert(copy@ =~= v@.take(i + 1));
        }
        i += 1;
    }
    proof {
        assert(v@.take(v@.len() as int) =~= v@);
    }
    copy
}

/// Intersects any number of canonical collections, one after the other: the
/// result of no collection is empty, that of one is that collection, and
/// each further collection is intersected with the result so far.
///
/// On canonical collections of well-formed intervals the result is their
/// intersection: canonical, and covering the points that all of them cover
/// and no others.
pub fn intersection_interval_iters<T>(input: &Vec<Vec<Interval<T>>>) -> (output: Vec<
    Interval<T>,
>) where T: Copy + Ord
    ensures
        is_total_order::<T>() && each_canonical(views_of(input@)) ==> {
            &&& is_intersection_of_all(output@, views_of(input@))
            &&& is_canonical(output@)
            &&& all_well_formed(output@)
            &&& forall|p: T| #[trigger]
                covered(output@, p) == (input@.len() > 0 && covered_by_each(views_of(input@), p))
        },
{
    let ghost srcs = views_of(input@);
    let ghost ordered = is_total_order::<T>() && each_canonical(srcs);
    let sources = input.len();
    if sources == 0 {
        return Vec::new();
    }
    let mut output = copy_of(&input[0]);
    let mut j: usize = 1;
    let ghost mut steps: Seq<Seq<Interval<T>>> = seq![srcs[0]];
    while j < sources
        invariant
            sources == input@.len(),
            srcs == views_of(input@),
            1 <= j <= sources,
            ordered == (is_total_order::<T>() && each_canonical(srcs)),
            steps.len() == j,
            steps.last() == output@,
            ordered ==> is_intersection_chain(steps, srcs.take(j as int)),
        decreases sources - j,
    {
        proof {
            if ordered {
                lemma_chain_points(steps, srcs.take(j as int), j - 1);
                assert(is_canonical(srcs[j as int]) && all_well_formed(srcs[j as int]));
                assert forall|q: int| 0 <= q < j implies is_canonical(
                    #[trigger] srcs.take(j as int)[q],
                ) && all_well_formed(srcs.take(j as int)[q]) by {
                    assert(is_canonical(srcs[q]) && all_well_formed(srcs[q]));
                }
            }
        }
        output = intersection_2_interval_iters(&output, &input[j]);
        proof {
            let ghost longer = steps.push(output@);
            if ordered {
                let more = srcs.take(j + 1);
                assert forall|q: int| 1 <= q < more.len() implies is_intersection(
                    #[trigger] longer[q],
                    longer[q - 1],
                    more[q],
                ) by {
                    if q < j {
                        assert(is_intersection(steps[q], steps[q - 1], srcs.take(j as int)[q]));
                    }
                }
            }
            steps = longer;
        }
        j += 1;
    }
    proof {
        if ordered {
            assert(srcs.take(sources as int) =~= srcs);
            assert(is_intersection_chain(steps, srcs) && output@ == steps.last());
            lemma_intersection_of_all_points(output@, srcs);
        }
    }
    output
}

} // verus!
