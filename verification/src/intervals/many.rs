//! Several collections of intervals taken together.

use crate::intervals::model::{
    all_well_formed, covered, is_canonical, is_merged, lemma_absorb, lemma_append,
    lemma_points_concat, lemma_points_take_next, sorted_by_start, taking_in, touched,
};
use crate::intervals::Interval;
use crate::order::{is_total_order, le, lemma_total_order};
use vstd::prelude::*;

verus! {

/// The collections that the vectors of `input` hold.
pub open spec fn views_of<T: Copy + Ord>(input: Seq<Vec<Interval<T>>>) -> Seq<Seq<Interval<T>>> {
    Seq::new(input.len(), |j: int| input[j]@)
}

/// The intervals of all collections of `input`, one collection after the
/// other.
pub open spec fn all_intervals<T: Copy + Ord>(input: Seq<Vec<Interval<T>>>) -> Seq<Interval<T>> {
    views_of(input).flatten()
}

/// Each collection of `srcs` is sorted by start.
pub open spec fn each_sorted_by_start<T: Copy + Ord>(srcs: Seq<Seq<Interval<T>>>) -> bool {
    forall|j: int| 0 <= j < srcs.len() ==> sorted_by_start(#[trigger] srcs[j])
}

/// Each collection of `srcs` is canonical and holds well-formed intervals
/// only.
pub open spec fn each_canonical<T: Copy + Ord>(srcs: Seq<Seq<Interval<T>>>) -> bool {
    forall|j: int|
        0 <= j < srcs.len() ==> is_canonical(#[trigger] srcs[j]) && all_well_formed(srcs[j])
}

/// Each collection of `srcs` holds well-formed intervals only.
pub open spec fn each_well_formed<T: Copy + Ord>(srcs: Seq<Seq<Interval<T>>>) -> bool {
    forall|j: int| 0 <= j < srcs.len() ==> all_well_formed(#[trigger] srcs[j])
}

/// Some collection of `srcs` covers `p`.
pub open spec fn covered_by_some<T: Copy + Ord>(srcs: Seq<Seq<Interval<T>>>, p: T) -> bool {
    exists|j: int| 0 <= j < srcs.len() && covered(#[trigger] srcs[j], p)
}

/// Some collection of `srcs` touches `p`.
pub open spec fn touched_by_some<T: Copy + Ord>(srcs: Seq<Seq<Interval<T>>>, p: T) -> bool {
    exists|j: int| 0 <= j < srcs.len() && touched(#[trigger] srcs[j], p)
}

/// Each collection of `srcs` covers `p`.
pub open spec fn covered_by_each<T: Copy + Ord>(srcs: Seq<Seq<Interval<T>>>, p: T) -> bool {
    forall|j: int| 0 <= j < srcs.len() ==> covered(#[trigger] srcs[j], p)
}

/// The points of several collections taken together are the points of each
/// of them, and they are well formed together where each of them is.
pub proof fn lemma_points_of_all<T: Copy + Ord>(srcs: Seq<Seq<Interval<T>>>)
    ensures
        forall|p: T| #[trigger] covered(srcs.flatten(), p) == covered_by_some(srcs, p),
        forall|p: T| #[trigger] touched(srcs.flatten(), p) == touched_by_some(srcs, p),
        all_well_formed(srcs.flatten()) == each_well_formed(srcs),
    decreases srcs.len(),
{
    if srcs.len() == 0 {
        assert(srcs.flatten() =~= Seq::<Interval<T>>::empty());
    } else {
        let first = srcs.first();
        let rest = srcs.drop_first();
        lemma_points_of_all(rest);
        lemma_points_concat(first, rest.flatten());
        let flat = srcs.flatten();
        assert(flat == first + rest.flatten());
        assert forall|p: T| #[trigger] covered(flat, p) == covered_by_some(srcs, p) by {
            assert(covered(rest.flatten(), p) == covered_by_some(rest, p));
            if covered(first, p) {
                assert(covered(srcs[0], p));
            }
            if covered_by_some(rest, p) {
                let j = choose|j: int| 0 <= j < rest.len() && covered(#[trigger] rest[j], p);
                assert(covered(srcs[j + 1], p));
            }
            if covered_by_some(srcs, p) {
                let j = choose|j: int| 0 <= j < srcs.len() && covered(#[trigger] srcs[j], p);
                if j > 0 {
                    assert(covered(rest[j - 1], p));
                }
            }
        }
        assert forall|p: T| #[trigger] touched(flat, p) == touched_by_some(srcs, p) by {
            assert(touched(rest.flatten(), p) == touched_by_some(rest, p));
            if touched(first, p) {
                assert(touched(srcs[0], p));
            }
            if touched_by_some(rest, p) {
                let j = choose|j: int| 0 <= j < rest.len() && touched(#[trigger] rest[j], p);
                assert(touched(srcs[j + 1], p));
            }
            if touched_by_some(srcs, p) {
                let j = choose|j: int| 0 <= j < srcs.len() && touched(#[trigger] srcs[j], p);
                if j > 0 {
                    assert(touched(rest[j - 1], p));
                }
            }
        }
        let tail = rest.flatten();
        if all_well_formed(flat) {
            assert forall|j: int|
                0 <= j < srcs.len() implies all_well_formed(#[trigger] srcs[j]) by {
                if j == 0 {
                    assert forall|i: int|
                        0 <= i < first.len() implies (#[trigger] first[i]).well_formed() by {
                        assert(flat[i].well_formed());
                    }
                } else {
                    assert forall|i: int|
                        0 <= i < tail.len() implies (#[trigger] tail[i]).well_formed() by {
                        assert(flat[first.len() + i].well_formed());
                    }
                    assert(all_well_formed(rest[j - 1]));
                }
            }
        }
        if each_well_formed(srcs) {
            assert(all_well_formed(srcs[0]));
            assert forall|j: int|
                0 <= j < rest.len() implies all_well_formed(#[trigger] rest[j]) by {
                assert(all_well_formed(srcs[j + 1]));
            }
            assert forall|i: int|
                0 <= i < flat.len() implies (#[trigger] flat[i]).well_formed() by {
                if i < first.len() {
                    assert(first[i].well_formed());
                } else {
                    assert(tail[i - first.len()].well_formed());
                }
            }
        }
    }
}

/// What has been taken of the collections `srcs`: of each the intervals
/// before its cursor.
pub open spec fn taken<T: Copy + Ord>(srcs: Seq<Seq<Interval<T>>>, cursors: Seq<usize>) -> Seq<
    Seq<Interval<T>>,
> {
    Seq::new(srcs.len(), |j: int| srcs[j].take(cursors[j] as int))
}

/// How many intervals of the first `n` collections of `srcs` stand at or
/// after the cursors.
pub open spec fn left_to_take<T: Copy + Ord>(
    srcs: Seq<Seq<Interval<T>>>,
    cursors: Seq<usize>,
    n: int,
) -> int
    decreases n,
{
    if n <= 0 {
        0
    } else {
        left_to_take(srcs, cursors, n - 1) + (srcs[n - 1].len() - cursors[n - 1])
    }
}

/// Moving one cursor on by one leaves one interval less to take.
pub proof fn lemma_one_less_to_take<T: Copy + Ord>(
    srcs: Seq<Seq<Interval<T>>>,
    cursors: Seq<usize>,
    j: int,
    moved: usize,
    n: int,
)
    requires
        cursors.len() == srcs.len(),
        0 <= n <= srcs.len(),
        0 <= j < srcs.len(),
        cursors[j] < srcs[j].len(),
        moved == cursors[j] + 1,
        forall|q: int| 0 <= q < srcs.len() ==> #[trigger] cursors[q] <= srcs[q].len(),
    ensures
        left_to_take(srcs, cursors.update(j, moved), n) >= 0,
        left_to_take(srcs, cursors.update(j, moved), n) == left_to_take(srcs, cursors, n) - if j
            < n {
            1int
        } else {
            0int
        },
    decreases n,
{
    if n > 0 {
        lemma_one_less_to_take(srcs, cursors, j, moved, n - 1);
    }
}

/// The state of a merge of the collections `srcs`, each sorted by start, of
/// each of which the intervals before its cursor have been taken into `out`:
/// `out` is canonical and holds exactly their points, and no interval still
/// to come starts before the last interval of `out` does.
pub open spec fn merging_many<T: Copy + Ord>(
    out: Seq<Interval<T>>,
    srcs: Seq<Seq<Interval<T>>>,
    cursors: Seq<usize>,
) -> bool {
    &&& cursors.len() == srcs.len()
    &&& forall|q: int| 0 <= q < srcs.len() ==> #[trigger] cursors[q] <= srcs[q].len()
    &&& is_canonical(out)
    &&& forall|p: T| #[trigger] covered(out, p) == covered_by_some(taken(srcs, cursors), p)
    &&& forall|p: T| #[trigger] touched(out, p) == touched_by_some(taken(srcs, cursors), p)
    &&& each_well_formed(srcs) ==> all_well_formed(out)
    &&& out.len() > 0 ==> forall|q: int|
        0 <= q < srcs.len() && #[trigger] cursors[q] < srcs[q].len() ==> le(
            out.last().start,
            srcs[q][cursors[q] as int].start,
        )
}

/// A merge of several collections starts with nothing taken.
pub proof fn lemma_merging_many_start<T: Copy + Ord>(
    srcs: Seq<Seq<Interval<T>>>,
    cursors: Seq<usize>,
)
    requires
        cursors.len() == srcs.len(),
        forall|q: int| 0 <= q < srcs.len() ==> #[trigger] cursors[q] == 0,
    ensures
        merging_many(Seq::<Interval<T>>::empty(), srcs, cursors),
{
    let out = Seq::<Interval<T>>::empty();
    let none = taken(srcs, cursors);
    assert forall|p: T| #[trigger] covered(out, p) == covered_by_some(none, p) by {
        if covered_by_some(none, p) {
            let j = choose|j: int| 0 <= j < none.len() && covered(#[trigger] none[j], p);
            assert(none[j].len() == 0);
        }
    }
    assert forall|p: T| #[trigger] touched(out, p) == touched_by_some(none, p) by {
        if touched_by_some(none, p) {
            let j = choose|j: int| 0 <= j < none.len() && touched(#[trigger] none[j], p);
            assert(none[j].len() == 0);
        }
    }
}

/// A merge of several collections takes in the next interval of the
/// collection `j`, where no other collection has a next interval that starts
/// before it.
pub proof fn lemma_merging_many_step<T: Copy + Ord>(
    out: Seq<Interval<T>>,
    srcs: Seq<Seq<Interval<T>>>,
    cursors: Seq<usize>,
    j: int,
    moved: usize,
)
    requires
        is_total_order::<T>(),
        each_sorted_by_start(srcs),
        merging_many(out, srcs, cursors),
        0 <= j < srcs.len(),
        cursors[j] < srcs[j].len(),
        moved == cursors[j] + 1,
        forall|q: int|
            0 <= q < srcs.len() && #[trigger] cursors[q] < srcs[q].len() ==> le(
                srcs[j][cursors[j] as int].start,
                srcs[q][cursors[q] as int].start,
            ),
    ensures
        merging_many(taking_in(out, srcs[j][cursors[j] as int]), srcs, cursors.update(j, moved)),
{
    lemma_total_order::<T>();
    let at = cursors[j] as int;
    let x = srcs[j][at];
    let next = cursors.update(j, moved);
    let grown = taking_in(out, x);
    let before = taken(srcs, cursors);
    let after = taken(srcs, next);
    lemma_points_take_next(srcs[j], at);
    assert(sorted_by_start(srcs[j]));
    if out.len() > 0 && le(x.start, out.last().end) {
        lemma_absorb(out, x);
        assert(grown.last().start == out.last().start);
    } else {
        lemma_append(out, x);
        assert(grown.last() == x);
    }
    assert forall|q: int|
        0 <= q < srcs.len() && q != j implies #[trigger] after[q] == before[q] by {}
    assert(after[j] == srcs[j].take(at + 1));
    assert(before[j] == srcs[j].take(at));
    assert forall|p: T| #[trigger] covered(grown, p) == covered_by_some(after, p) by {
        assert(covered(out, p) == covered_by_some(before, p));
        if covered_by_some(before, p) {
            let q = choose|q: int| 0 <= q < before.len() && covered(#[trigger] before[q], p);
            if q == j {
                assert(covered(after[j], p));
            } else {
                assert(covered(after[q], p));
            }
        }
        if x.covers(p) {
            assert(covered(after[j], p));
        }
        if covered_by_some(after, p) {
            let q = choose|q: int| 0 <= q < after.len() && covered(#[trigger] after[q], p);
            if q == j {
                if !x.covers(p) {
                    assert(covered(before[j], p));
                }
            } else {
                assert(covered(before[q], p));
            }
        }
    }
    assert forall|p: T| #[trigger] touched(grown, p) == touched_by_some(after, p) by {
        assert(touched(out, p) == touched_by_some(before, p));
        if touched_by_some(before, p) {
            let q = choose|q: int| 0 <= q < before.len() && touched(#[trigger] before[q], p);
            if q == j {
                assert(touched(after[j], p));
            } else {
                assert(touched(after[q], p));
            }
        }
        if x.touches(p) {
            assert(touched(after[j], p));
        }
        if touched_by_some(after, p) {
            let q = choose|q: int| 0 <= q < after.len() && touched(#[trigger] after[q], p);
            if q == j {
                if !x.touches(p) {
                    assert(touched(before[j], p));
                }
            } else {
                assert(touched(before[q], p));
            }
        }
    }
    if each_well_formed(srcs) {
        assert(all_well_formed(srcs[j]));
        assert(x.well_formed());
    }
    assert forall|q: int| 0 <= q < srcs.len() && #[trigger] next[q] < srcs[q].len() implies le(
        grown.last().start,
        srcs[q][next[q] as int].start,
    ) by {
        if q == j {
            assert(le(srcs[j][at].start, srcs[j][at + 1].start));
        } else {
            assert(cursors[q] < srcs[q].len());
        }
    }
}

/// A merge of several collections that has taken all of each has their
/// merged form.
pub proof fn lemma_merging_many_done<T: Copy + Ord>(
    out: Seq<Interval<T>>,
    srcs: Seq<Seq<Interval<T>>>,
    cursors: Seq<usize>,
)
    requires
        merging_many(out, srcs, cursors),
        forall|q: int| 0 <= q < srcs.len() ==> #[trigger] cursors[q] == srcs[q].len(),
    ensures
        is_merged(out, srcs.flatten()),
{
    lemma_points_of_all(srcs);
    let whole = taken(srcs, cursors);
    assert(whole =~= srcs) by {
        assert forall|q: int| 0 <= q < srcs.len() implies #[trigger] whole[q] == srcs[q] by {
            assert(srcs[q].take(cursors[q] as int) =~= srcs[q]);
        }
    }
}

} // verus!
