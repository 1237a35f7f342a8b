//! Merging canonical collections into one.

use crate::ds::MinHeap;
use crate::intervals::many::{
    all_intervals, each_sorted_by_start, left_to_take, lemma_merging_many_done,
    lemma_merging_many_start, lemma_merging_many_step, lemma_one_less_to_take, merging_many,
    views_of,
};
use crate::intervals::model::{
    is_merged, lemma_merging_absorb, lemma_merging_append, lemma_merging_done,
    lemma_merging_start, lemma_merging_swap, merging, sorted_by_start, taking_in,
    with_last_end,
};
use crate::intervals::Interval;
use crate::order::{
    at_most, is_total_order, larger, le, lemma_pair_total_order, lemma_total_order, max_of,
};
use vstd::multiset::Multiset;
use vstd::prelude::*;

verus! {

/// Widens the last interval of `output` so that it reaches the end of `x`.
pub(crate) fn absorb_into_last<T>(output: &mut Vec<Interval<T>>, x: Interval<T>) where
    T: Copy + Ord,

    requires
        old(output)@.len() > 0,
    ensures
        final(output)@.len() == old(output)@.len(),
        is_total_order::<T>() ==> final(output)@ == with_last_end(
            old(output)@,
            max_of(old(output)@.last().end, x.end),
        ),
{
    let at = output.len() - 1;
    let last = output[at];
    output[at] = Interval { start: last.start, end: larger(last.end, x.end) };
    proof {
        if is_total_order::<T>() {
            assert(output@ =~= with_last_end(old(output)@, max_of(old(output)@.last().end, x.end)));
        }
    }
}

/// Whether `x` starts inside the last interval of `output` or on its
/// boundary, so that the two are to be merged.
pub(crate) fn reaches_last<T>(output: &Vec<Interval<T>>, x: &Interval<T>) -> (r: bool) where
    T: Copy + Ord,

    ensures
        r ==> output@.len() > 0,
        is_total_order::<T>() ==> r == (output@.len() > 0 && le(x.start, output@.last().end)),
{
    let len = output.len();
    len > 0 && at_most(&x.start, &output[len - 1].end)
}

/// Merges two collections that are sorted by start into one canonical
/// collection, walking each of them once.
///
/// An interval that starts inside the last interval of the output, or on its
/// boundary, widens it; otherwise the candidate with the smaller start is
/// appended, that of `a` where the two starts are equal. The result is the
/// merged form of the two collections taken together.
pub fn merge_2_interval_iters<T>(a: &Vec<Interval<T>>, b: &Vec<Interval<T>>) -> (output: Vec<
    Interval<T>,
>) where T: Copy + Ord
    ensures
        is_total_order::<T>() && sorted_by_start(a@) && sorted_by_start(b@) ==> is_merged(
            output@,
            a@ + b@,
        ),
{
    let ghost sorted = is_total_order::<T>() && sorted_by_start(a@) && sorted_by_start(b@);
    let mut output: Vec<Interval<T>> = Vec::new();
    let mut ai: usize = 0;
    let mut bi: usize = 0;
    proof {
        lemma_merging_start(a@, b@);
    }
    while ai < a.len() && bi < b.len()
        invariant
            ai <= a.len(),
            bi <= b.len(),
            sorted == (is_total_order::<T>() && sorted_by_start(a@) && sorted_by_start(b@)),
            sorted ==> merging(output@, a@, ai as int, b@, bi as int),
        decreases a.len() - ai + b.len() - bi,
    {
        let from_a = a[ai];
        let from_b = b[bi];
        if reaches_last(&output, &from_a) {
            proof {
                if sorted {
                    lemma_merging_absorb(output@, a@, ai as int, b@, bi as int);
                }
            }
            absorb_into_last(&mut output, from_a);
            ai += 1;
        } else if reaches_last(&output, &from_b) {
            proof {
                if sorted {
                    lemma_merging_swap(output@, a@, ai as int, b@, bi as int);
                    lemma_merging_absorb(output@, b@, bi as int, a@, ai as int);
                    lemma_merging_swap(
                        with_last_end(output@, max_of(output@.last().end, from_b.end)),
                        b@,
                        bi + 1,
                        a@,
                        ai as int,
                    );
                }
            }
            absorb_into_last(&mut output, from_b);
            bi += 1;
        } else if at_most(&from_a.start, &from_b.start) {
            proof {
                if sorted {
                    lemma_merging_append(output@, a@, ai as int, b@, bi as int);
                }
            }
            output.push(from_a);
            ai += 1;
        } else {
            proof {
                if sorted {
                    lemma_total_order::<T>();
                    lemma_merging_swap(output@, a@, ai as int, b@, bi as int);
                    lemma_merging_append(output@, b@, bi as int, a@, ai as int);
                    lemma_merging_swap(output@.push(from_b), b@, bi + 1, a@, ai as int);
                }
            }
            output.push(from_b);
            bi += 1;
        }
    }
    while ai < a.len()
        invariant
            ai <= a.len(),
            bi <= b.len(),
            ai < a.len() ==> bi == b.len(),
            sorted == (is_total_order::<T>() && sorted_by_start(a@) && sorted_by_start(b@)),
            sorted ==> merging(output@, a@, ai as int, b@, bi as int),
        decreases a.len() - ai,
    {
        let from_a = a[ai];
        if reaches_last(&output, &from_a) {
            proof {
                if sorted {
                    lemma_merging_absorb(output@, a@, ai as int, b@, bi as int);
                }
            }
            absorb_into_last(&mut output, from_a);
        } else {
            proof {
                if sorted {
                    lemma_merging_append(output@, a@, ai as int, b@, bi as int);
                }
            }
            output.push(from_a);
        }
        ai += 1;
    }
    proof {
        if sorted {
            lemma_merging_swap(output@, a@, ai as int, b@, bi as int);
        }
    }
    while bi < b.len()
        invariant
            ai == a.len(),
            bi <= b.len(),
            sorted == (is_total_order::<T>() && sorted_by_start(a@) && sorted_by_start(b@)),
            sorted ==> merging(output@, b@, bi as int, a@, ai as int),
        decreases b.len() - bi,
    {
        let from_b = b[bi];
        if reaches_last(&output, &from_b) {
            proof {
                if sorted {
                    lemma_merging_absorb(output@, b@, bi as int, a@, ai as int);
                }
            }
            absorb_into_last(&mut output, from_b);
        } else {
            proof {
                if sorted {
                    lemma_merging_append(output@, b@, bi as int, a@, ai as int);
                }
            }
            output.push(from_b);
        }
        bi += 1;
    }
    proof {
        if sorted {
            lemma_merging_swap(output@, b@, bi as int, a@, ai as int);
            lemma_merging_done(output@, a@, b@);
        }
    }
    output
}

/// `item` names the collection of `srcs` at `item.1` and the start of its
/// next interval, the one at its cursor.
spec fn is_head<T: Copy + Ord>(
    srcs: Seq<Seq<Interval<T>>>,
    cursors: Seq<usize>,
    item: (T, usize),
) -> bool {
    &&& item.1 < cursors.len()
    &&& item.1 < srcs.len()
    &&& cursors[item.1 as int] < srcs[item.1 as int].len()
    &&& item.0 == srcs[item.1 as int][cursors[item.1 as int] as int].start
}

/// `heads` holds, once each, the heads of the collections that have a next
/// interval, and nothing else.
spec fn holds_heads<T: Copy + Ord>(
    heads: Multiset<(T, usize)>,
    srcs: Seq<Seq<Interval<T>>>,
    cursors: Seq<usize>,
) -> bool {
    forall|item: (T, usize)| #[trigger]
        heads.count(item) == if is_head(srcs, cursors, item) {
            1nat
        } else {
            0nat
        }
}

/// Merges any number of collections, each sorted by start, into one
/// canonical collection: the merged form of all of them taken together.
///
/// A queue holds, for each collection that has intervals left, the start of
/// its next interval. The interval with the least start is taken in: it
/// widens the last interval of the output where it starts inside it or on
/// its boundary, and is appended to the output otherwise.
pub fn merge_interval_iters<T>(input: &Vec<Vec<Interval<T>>>) -> (output: Vec<Interval<T>>) where
    T: Copy + Ord,

    ensures
        is_total_order::<T>() && each_sorted_by_start(views_of(input@)) ==> is_merged(
            output@,
            all_intervals(input@),
        ),
{
    let ghost srcs = views_of(input@);
    let ghost ordered = is_total_order::<T>() && each_sorted_by_start(srcs);
    let sources = input.len();
    let mut cursors: Vec<usize> = Vec::new();
    let mut heads: MinHeap<(T, usize)> = MinHeap::new();
    let mut j: usize = 0;
    while j < sources
        invariant
            sources == input@.len(),
            srcs == views_of(input@),
            j <= sources,
            cursors@.len() == j,
            forall|q: int| 0 <= q < j ==> #[trigger] cursors@[q] == 0,
            holds_heads(heads@, srcs, cursors@),
        decreases sources - j,
    {
        let ghost before = heads@;
        let ghost old_cursors = cursors@;
        cursors.push(0);
        if input[j].len() > 0 {
            heads.push((input[j][0].start, j));
        }
        proof {
            broadcast use vstd::multiset::group_multiset_axioms;

            assert(srcs[j as int] == input@[j as int]@);
            assert forall|item: (T, usize)| #[trigger]
                heads@.count(item) == if is_head(srcs, cursors@, item) {
                    1nat
                } else {
                    0nat
                } by {
                assert(before.count(item) == if is_head(srcs, old_cursors, item) {
                    1nat
                } else {
                    0nat
                });
                if item.1 < j {
                    assert(cursors@[item.1 as int] == old_cursors[item.1 as int]);
                }
            }
        }
        j += 1;
    }
    let mut output: Vec<Interval<T>> = Vec::new();
    proof {
        lemma_merging_many_start(srcs, cursors@);
    }
    loop
        invariant
            sources == input@.len(),
            srcs == views_of(input@),
            cursors@.len() == sources,
            forall|q: int| 0 <= q < sources ==> #[trigger] cursors@[q] <= srcs[q].len(),
            holds_heads(heads@, srcs, cursors@),
            ordered == (is_total_order::<T>() && each_sorted_by_start(srcs)),
            ordered ==> merging_many(output@, srcs, cursors@),
        decreases left_to_take(srcs, cursors@, sources as int),
    {
        let ghost queue = heads@;
        let ghost was = cursors@;
        let ghost out = output@;
        match heads.pop() {
            None => {
                proof {
                    assert forall|q: int| 0 <= q < sources implies #[trigger] cursors@[q]
                        == srcs[q].len() by {
                        if cursors@[q] < srcs[q].len() {
                            let item = (srcs[q][cursors@[q] as int].start, q as usize);
                            assert(is_head(srcs, cursors@, item));
                            assert(queue.count(item) == 1);
                            broadcast use vstd::multiset::group_multiset_axioms;

                            assert(queue =~= Multiset::<(T, usize)>::empty());
                        }
                    }
                    if ordered {
                        lemma_merging_many_done(output@, srcs, cursors@);
                    }
                }
                return output;
            },
            Some(least) => {
                let from = least.1;
                proof {
                    assert(queue.count(least) > 0);
                    assert(is_head(srcs, was, least));
                    assert(srcs[from as int] == input@[from as int]@);
                }
                let at = cursors[from];
                let size = input[from].len();
                let next = input[from][at];
                let moved = at + 1;
                proof {
                    if ordered {
                        lemma_pair_total_order::<T>();
                        assert forall|q: int|
                            0 <= q < srcs.len() && #[trigger] was[q] < srcs[q].len() implies le(
                            srcs[from as int][at as int].start,
                            srcs[q][was[q] as int].start,
                        ) by {
                            let item = (srcs[q][was[q] as int].start, q as usize);
                            assert(is_head(srcs, was, item));
                            assert(queue.count(item) == 1);
                            assert(queue.contains(item));
                            assert(le(least, item));
                        }
                        lemma_merging_many_step(out, srcs, was, from as int, moved);
                    }
                    lemma_one_less_to_take(srcs, was, from as int, moved, sources as int);
                }
                if reaches_last(&output, &next) {
                    absorb_into_last(&mut output, next);
                } else {
                    output.push(next);
                }
                cursors[from] = moved;
                let ghost waiting = heads@;
                if moved < size {
                    heads.push((input[from][moved].start, from));
                }
                proof {
                    broadcast use vstd::multiset::group_multiset_axioms;

                    assert(cursors@ == was.update(from as int, moved));
                    assert(output@ == taking_in(out, next) || !ordered);
                    assert forall|item: (T, usize)| #[trigger]
                        heads@.count(item) == if is_head(srcs, cursors@, item) {
                            1nat
                        } else {
                            0nat
                        } by {
                        assert(queue.count(item) == if is_head(srcs, was, item) {
                            1nat
                        } else {
                            0nat
                        });
                        assert(waiting == queue.remove(least));
                        if item.1 != from {
                            if item.1 < sources {
                                assert(cursors@[item.1 as int] == was[item.1 as int]);
                            }
                        }
                    }
                }
            },
        }
    }
}

} // verus!
