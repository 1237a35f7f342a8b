//! Merging the overlapping and touching intervals of collections that are
//! sorted by start.

use crate::intervals::many::{
    all_intervals, covered_by_some, each_sorted_by_start, each_well_formed, lemma_points_of_all,
    touched_by_some, views_of,
};
use crate::intervals::merge_iters::{absorb_into_last, merge_interval_iters, reaches_last};
use crate::intervals::model::{
    absorbed, all_well_formed, covered, is_canonical, is_merged, lemma_absorb, lemma_append,
    lemma_merged_of_same_points, lemma_merged_unique, lemma_merging_absorb,
    lemma_merging_append, lemma_merging_done, lemma_merging_start, lemma_merging_swap,
    lemma_points_take_next,
    lemma_same_intervals_same_points, merging, same_points, sorted_by_start, touched,
    with_last_end,
};
use crate::intervals::sort::{
    ascending_by_start_then_end, lemma_ascending_is_sorted_by_start, sort_by_start,
};
use crate::intervals::Interval;
use crate::order::{at_most, is_total_order, larger, le, lemma_total_order, lt, max_of};
use vstd::prelude::*;
use vstd::seq_lib::{lemma_multiset_commutative, to_multiset_len};

verus! {

/// The slots of a collection that a merge has emptied, held in a hash set of
/// the crate `hashbrown`.
#[verifier::external_body]
pub struct HoleSet {
    slots: hashbrown::HashSet<usize>,
}

/// The indices that a [`HoleSet`] holds.
pub uninterp spec fn hole_indices(holes: HoleSet) -> Set<usize>;

/// `hashbrown::HashSet::new`: a set that holds nothing.
#[verifier::external_body]
fn holes_new() -> (holes: HoleSet)
    ensures
        hole_indices(holes) == Set::<usize>::empty(),
{
    HoleSet { slots: hashbrown::HashSet::new() }
}

/// `hashbrown::HashSet::insert`: afterwards the set holds `index` beside
/// what it held before.
#[verifier::external_body]
fn holes_insert(holes: &mut HoleSet, index: usize)
    ensures
        hole_indices(*final(holes)) == hole_indices(*old(holes)).insert(index),
{
    holes.slots.insert(index);
}

/// `hashbrown::HashSet::contains`: whether the set holds `index`.
#[verifier::external_body]
fn holes_contains(holes: &HoleSet, index: usize) -> (found: bool)
    ensures
        found == hole_indices(*holes).contains(index),
{
    holes.slots.contains(&index)
}

/// The intervals of `s` at the indices `kept`, in that order.
spec fn picked<T: Copy + Ord>(s: Seq<Interval<T>>, kept: Seq<int>) -> Seq<Interval<T>> {
    Seq::new(kept.len(), |k: int| s[kept[k]])
}

/// `kept` lists, in ascending order, the indices below `upto` that are not
/// in `holes`.
spec fn lists_kept(kept: Seq<int>, holes: Set<usize>, upto: int) -> bool {
    &&& forall|a: int, b: int| 0 <= a < b < kept.len() ==> kept[a] < kept[b]
    &&& forall|k: int| 0 <= k < kept.len() ==> 0 <= #[trigger] kept[k] < upto
    &&& forall|j: int| 0 <= j < upto ==> (holes.contains(j as usize) <==> !kept.contains(j))
    &&& forall|j: usize| holes.contains(j) ==> j < upto
}

/// Merges the intervals of a collection that is sorted by start, in place:
/// each interval that starts inside the one before it, or on its boundary,
/// is absorbed by it.
///
/// On a collection sorted by start the result is its merged form. A
/// canonical collection is left as it is.
pub fn merge_overlapping<T>(input: &mut Vec<Interval<T>>) where T: Copy + Ord
    ensures
        final(input)@.len() <= old(input)@.len(),
        old(input)@.len() <= 1 ==> final(input)@ == old(input)@,
        is_total_order::<T>() ==> final(input)@ == absorbed(old(input)@),
        is_total_order::<T>() && sorted_by_start(old(input)@) ==> is_merged(
            final(input)@,
            old(input)@,
        ),
        is_total_order::<T>() && is_canonical(old(input)@) ==> final(input)@ == old(input)@,
{
    let n = input.len();
    if n <= 1 {
        proof {
            if is_total_order::<T>() {
                lemma_total_order::<T>();
                if n == 1 {
                    assert(absorbed(input@.drop_last()) =~= Seq::<Interval<T>>::empty());
                }
                assert(absorbed(input@) =~= input@);
            }
        }
        return ;
    }
    let ghost before = input@;
    let ghost sorted = is_total_order::<T>() && sorted_by_start(before);
    let ghost canonical = is_total_order::<T>() && is_canonical(before);
    let mut holes = holes_new();
    let mut last_valid: usize = 0;
    let ghost mut kept: Seq<int> = seq![0int];
    let ghost mut out: Seq<Interval<T>> = seq![before[0]];
    proof {
        if sorted {
            lemma_total_order::<T>();
            lemma_append(Seq::<Interval<T>>::empty(), before[0]);
            assert(Seq::<Interval<T>>::empty().push(before[0]) =~= out);
            assert(before.take(1) =~= out);
        }
        assert(absorbed(before.take(1).drop_last()) =~= Seq::<Interval<T>>::empty());
        assert(absorbed(before.take(1)) =~= out);
        assert(kept.contains(0)) by {
            assert(kept[0] == 0);
        }
    }
    let mut i: usize = 1;
    while i < n
        invariant
            n == input.len(),
            n == before.len(),
            1 <= i <= n,
            last_valid < i,
            sorted == (is_total_order::<T>() && sorted_by_start(before)),
            canonical == (is_total_order::<T>() && is_canonical(before)),
            forall|j: int| 0 <= j < n ==> (#[trigger] input@[j]).start == before[j].start,
            forall|j: int| i <= j < n ==> #[trigger] input@[j] == before[j],
            kept.len() >= 1,
            kept.last() == last_valid,
            lists_kept(kept, hole_indices(holes), i as int),
            out =~= picked(input@, kept),
            is_total_order::<T>() ==> out == absorbed(before.take(i as int)),
            sorted ==> is_canonical(out),
            sorted ==> forall|p: T| #[trigger] covered(out, p) == covered(before.take(i as int), p),
            sorted ==> forall|p: T| #[trigger] touched(out, p) == touched(before.take(i as int), p),
            sorted && all_well_formed(before) ==> all_well_formed(out),
            canonical ==> input@ == before && kept.len() == i,
        decreases n - i,
    {
        let current = input[i];
        let last = input[last_valid];
        let ghost prev_input = input@;
        let ghost prev_holes = hole_indices(holes);
        proof {
            assert(out[kept.len() - 1] == input@[kept[kept.len() - 1]]);
            assert(out.last() == last);
            assert(current == before[i as int]);
            assert(before.take(i + 1).drop_last() =~= before.take(i as int));
            assert(before.take(i + 1).last() == current);
            lemma_points_take_next(before, i as int);
            if sorted {
                lemma_total_order::<T>();
                assert(le(before[last_valid as int].start, before[i as int].start));
            }
        }
        if at_most(&current.start, &last.end) {
            let wide = Interval { start: last.start, end: larger(last.end, current.end) };
            input[last_valid] = wide;
            holes_insert(&mut holes, i);
            proof {
                let widened = with_last_end(out, max_of(last.end, current.end));
                if sorted {
                    lemma_absorb(out, current);
                }
                if canonical {
                    assert(kept[kept.len() - 1] == i - 1);
                    assert(lt(before[i - 1].end, before[i as int].start));
                    assert(false);
                }
                assert forall|j: int| 0 <= j < i + 1 implies (hole_indices(holes).contains(
                    j as usize,
                ) <==> !kept.contains(j)) by {
                    if j < i {
                        assert(prev_holes.contains(j as usize) <==> !kept.contains(j));
                    } else {
                        if kept.contains(j) {
                            let k = choose|k: int| 0 <= k < kept.len() && kept[k] == j;
                            assert(kept[k] < i);
                        }
                    }
                }
                if is_total_order::<T>() {
                    assert(picked(input@, kept) =~= widened) by {
                        assert forall|k: int| 0 <= k < kept.len() implies picked(input@, kept)[k]
                            == widened[k] by {
                            if k < kept.len() - 1 {
                                assert(kept[k] < kept[kept.len() - 1]);
                                assert(input@[kept[k]] == prev_input[kept[k]]);
                                assert(out[k] == prev_input[kept[k]]);
                            }
                        }
                    }
                    out = widened;
                } else {
                    out = picked(input@, kept);
                }
            }
        } else {
            last_valid = i;
            proof {
                let ghost old_kept = kept;
                if sorted {
                    lemma_append(out, current);
                }
                kept = kept.push(i as int);
                assert forall|j: int| 0 <= j < i + 1 implies (hole_indices(holes).contains(
                    j as usize,
                ) <==> !kept.contains(j)) by {
                    if j < i {
                        if old_kept.contains(j) {
                            let k = choose|k: int| 0 <= k < old_kept.len() && old_kept[k] == j;
                            assert(kept[k] == j);
                        }
                        if kept.contains(j) {
                            let k = choose|k: int| 0 <= k < kept.len() && kept[k] == j;
                            assert(old_kept[k] == j);
                        }
                    } else {
                        assert(kept[kept.len() - 1] == j);
                        assert(!prev_holes.contains(i));
                    }
                }
                assert(picked(input@, kept) =~= out.push(current));
                out = out.push(current);
                if canonical {
                    assert(old_kept.len() == i);
                }
            }
        }
        i += 1;
    }
    let ghost marked = input@;
    proof {
        assert(before.take(n as int) =~= before);
        if canonical {
            assert forall|k: int| 0 <= k < kept.len() implies #[trigger] kept[k] == k by {
                lemma_ascending_fills(kept, n as int, k);
            }
            assert(out =~= before);
        }
    }
    let mut write: usize = 0;
    let mut read: usize = 0;
    while read < n
        invariant
            n == input.len(),
            n == marked.len(),
            write <= read <= n,
            write <= kept.len(),
            lists_kept(kept, hole_indices(holes), n as int),
            out =~= picked(marked, kept),
            forall|k: int| 0 <= k < write ==> #[trigger] input@[k] == out[k],
            forall|j: int| read <= j < n ==> #[trigger] input@[j] == marked[j],
            forall|k: int| 0 <= k < write ==> #[trigger] kept[k] < read,
            forall|k: int| write <= k < kept.len() ==> #[trigger] kept[k] >= read,
        decreases n - read,
    {
        let hole = holes_contains(&holes, read);
        proof {
            if !hole {
                assert(kept.contains(read as int));
                let k = choose|k: int| 0 <= k < kept.len() && kept[k] == read;
                if k > write {
                    assert(kept[write as int] < kept[k]);
                }
                assert(k == write);
            } else {
                if write < kept.len() && kept[write as int] == read {
                    assert(kept.contains(read as int));
                }
            }
        }
        if !hole {
            let moved = input[read];
            input[write] = moved;
            write += 1;
        }
        read += 1;
    }
    input.truncate(write);
    proof {
        if write < kept.len() {
            assert(kept[write as int] >= n);
        }
        assert(input@ =~= out);
    }
}

/// Merges two collections that are sorted by start into one new canonical
/// collection, by one loop that sees at each step which of the two still has
/// an interval to give.
///
/// An interval that starts inside the last interval of the output, or on its
/// boundary, widens it; otherwise the candidate with the smaller start is
/// appended, that of `a` where the two starts are equal. The result is the
/// merged form of the two collections taken together.
pub fn merge_overlapping_from_2_interval_iters_pre_sorted<T>(
    a: &Vec<Interval<T>>,
    b: &Vec<Interval<T>>,
) -> (output: Vec<Interval<T>>) where T: Copy + Ord
    ensures
        is_total_order::<T>() && sorted_by_start(a@) && sorted_by_start(b@) ==> is_merged(
            output@,
            a@ + b@,
        ),
{
    let ghost sorted = is_total_order::<T>() && sorted_by_start(a@) && sorted_by_start(b@);
    let mut output: Vec<Interval<T>> = Vec::new();
    let mut ai: usize = 0;
    let mut bi: usize = 0;
    proof {
        lemma_merging_start(a@, b@);
    }
    while ai < a.len() || bi < b.len()
        invariant
            ai <= a.len(),
            bi <= b.len(),
            sorted == (is_total_order::<T>() && sorted_by_start(a@) && sorted_by_start(b@)),
            sorted ==> merging(output@, a@, ai as int, b@, bi as int),
        decreases a.len() - ai + b.len() - bi,
    {
        if ai < a.len() && reaches_last(&output, &a[ai]) {
            proof {
                if sorted {
                    lemma_merging_absorb(output@, a@, ai as int, b@, bi as int);
                }
            }
            absorb_into_last(&mut output, a[ai]);
            ai += 1;
        } else if bi < b.len() && reaches_last(&output, &b[bi]) {
            proof {
                if sorted {
                    lemma_merging_swap(output@, a@, ai as int, b@, bi as int);
                    lemma_merging_absorb(output@, b@, bi as int, a@, ai as int);
                    lemma_merging_swap(
                        with_last_end(output@, max_of(output@.last().end, b@[bi as int].end)),
                        b@,
                        bi + 1,
                        a@,
                        ai as int,
                    );
                }
            }
            absorb_into_last(&mut output, b[bi]);
            bi += 1;
        } else if bi >= b.len() || (ai < a.len() && at_most(&a[ai].start, &b[bi].start)) {
            proof {
                if sorted {
                    lemma_merging_append(output@, a@, ai as int, b@, bi as int);
                }
            }
            output.push(a[ai]);
            ai += 1;
        } else {
            proof {
                if sorted {
                    lemma_total_order::<T>();
                    lemma_merging_swap(output@, a@, ai as int, b@, bi as int);
                    lemma_merging_append(output@, b@, bi as int, a@, ai as int);
                    lemma_merging_swap(output@.push(b@[bi as int]), b@, bi + 1, a@, ai as int);
                }
            }
            output.push(b[bi]);
            bi += 1;
        }
    }
    proof {
        if sorted {
            lemma_merging_done(output@, a@, b@);
        }
    }
    output
}

/// Sorts a collection by start and merges its overlapping and touching
/// intervals, in place. The result is the merged form of the collection.
pub fn sort_and_merge_overlapping<T>(input: &mut Vec<Interval<T>>) where T: Copy + Ord
    ensures
        final(input)@.len() <= old(input)@.len(),
        is_total_order::<T>() ==> is_merged(final(input)@, old(input)@),
        is_total_order::<T>() && is_canonical(old(input)@) && all_well_formed(old(input)@)
            ==> final(input)@ == old(input)@,
{
    sort_by_start(input);
    let ghost sorted = input@;
    proof {
        to_multiset_len(sorted);
        to_multiset_len(old(input)@);
    }
    merge_overlapping(input);
    proof {
        if is_total_order::<T>() {
            lemma_ascending_is_sorted_by_start(sorted);
            lemma_same_intervals_same_points(sorted, old(input)@);
            lemma_merged_of_same_points(input@, sorted, old(input)@);
            if is_canonical(old(input)@) && all_well_formed(old(input)@) {
                lemma_merged_unique(input@, old(input)@, old(input)@);
            }
        }
    }
}

/// Sorts two collections by start, each in place, and merges them into one
/// new canonical collection: the merged form of the two taken together.
pub fn sort_and_merge_overlapping_from_2_interval_iters<T>(
    a: &mut Vec<Interval<T>>,
    b: &mut Vec<Interval<T>>,
) -> (output: Vec<Interval<T>>) where T: Copy + Ord
    ensures
        final(a)@.to_multiset() == old(a)@.to_multiset(),
        final(b)@.to_multiset() == old(b)@.to_multiset(),
        is_total_order::<T>() ==> ascending_by_start_then_end(final(a)@),
        is_total_order::<T>() ==> ascending_by_start_then_end(final(b)@),
        is_total_order::<T>() ==> is_merged(output@, old(a)@ + old(b)@),
{
    sort_by_start(a);
    sort_by_start(b);
    let output = merge_overlapping_from_2_interval_iters_pre_sorted(a, b);
    proof {
        if is_total_order::<T>() {
            lemma_ascending_is_sorted_by_start(a@);
            lemma_ascending_is_sorted_by_start(b@);
            lemma_multiset_commutative(a@, b@);
            lemma_multiset_commutative(old(a)@, old(b)@);
            lemma_same_intervals_same_points(a@ + b@, old(a)@ + old(b)@);
            lemma_merged_of_same_points(output@, a@ + b@, old(a)@ + old(b)@);
        }
    }
    output
}

/// Merges any number of collections, each sorted by start, into one new
/// canonical collection: the merged form of all of them taken together.
pub fn merge_overlapping_from_interval_iters_pre_sorted<T>(
    interval_iters: &Vec<Vec<Interval<T>>>,
) -> (output: Vec<Interval<T>>) where T: Copy + Ord
    ensures
        is_total_order::<T>() && each_sorted_by_start(views_of(interval_iters@)) ==> is_merged(
            output@,
            all_intervals(interval_iters@),
        ),
{
    merge_interval_iters(interval_iters)
}

/// Each collection of `after` holds the intervals that the collection of
/// `before` in its place holds, each as often.
pub open spec fn each_rearranged<T: Copy + Ord>(
    after: Seq<Vec<Interval<T>>>,
    before: Seq<Vec<Interval<T>>>,
) -> bool {
    &&& after.len() == before.len()
    &&& forall|j: int|
        0 <= j < after.len() ==> (#[trigger] after[j])@.to_multiset() == before[j]@.to_multiset()
}

/// Sorts any number of collections by start, each in place, and merges them
/// into one new canonical collection: the merged form of all of them taken
/// together.
pub fn sort_and_merge_overlapping_from_interval_iters<T>(
    interval_iters: &mut Vec<Vec<Interval<T>>>,
) -> (output: Vec<Interval<T>>) where T: Copy + Ord
    ensures
        each_rearranged(final(interval_iters)@, old(interval_iters)@),
        is_total_order::<T>() ==> forall|j: int|
            0 <= j < final(interval_iters)@.len() ==> ascending_by_start_then_end(
                (#[trigger] final(interval_iters)@[j])@,
            ),
        is_total_order::<T>() ==> is_merged(output@, all_intervals(old(interval_iters)@)),
{
    let sources = interval_iters.len();
    let mut j: usize = 0;
    while j < sources
        invariant
            sources == interval_iters@.len(),
            sources == old(interval_iters)@.len(),
            j <= sources,
            forall|q: int|
                0 <= q < sources ==> (#[trigger] interval_iters@[q])@.to_multiset() == old(
                    interval_iters,
                )@[q]@.to_multiset(),
            is_total_order::<T>() ==> forall|q: int|
                0 <= q < j ==> ascending_by_start_then_end((#[trigger] interval_iters@[q])@),
        decreases sources - j,
    {
        sort_by_start(&mut interval_iters[j]);
        j += 1;
    }
    let output = merge_interval_iters(interval_iters);
    proof {
        if is_total_order::<T>() {
            let sorted = views_of(interval_iters@);
            let raw = views_of(old(interval_iters)@);
            assert forall|q: int| 0 <= q < sorted.len() implies sorted_by_start(
                #[trigger] sorted[q],
            ) by {
                lemma_ascending_is_sorted_by_start(interval_iters@[q]@);
            }
            lemma_rearranged_same_points(sorted, raw);
            lemma_merged_of_same_points(output@, sorted.flatten(), raw.flatten());
        }
    }
    output
}

/// Collections that hold, place by place, the same intervals have together
/// the same points, and are well formed together where the others are.
proof fn lemma_rearranged_same_points<T: Copy + Ord>(
    a: Seq<Seq<Interval<T>>>,
    b: Seq<Seq<Interval<T>>>,
)
    requires
        a.len() == b.len(),
        forall|j: int| 0 <= j < a.len() ==> (#[trigger] a[j]).to_multiset() == b[j].to_multiset(),
    ensures
        same_points(a.flatten(), b.flatten()),
        all_well_formed(a.flatten()) == all_well_formed(b.flatten()),
{
    lemma_points_of_all(a);
    lemma_points_of_all(b);
    assert forall|j: int| 0 <= j < a.len() implies same_points(#[trigger] a[j], b[j])
        && all_well_formed(a[j]) == all_well_formed(b[j]) by {
        lemma_same_intervals_same_points(a[j], b[j]);
    }
    assert forall|p: T| #[trigger] covered(a.flatten(), p) == covered(b.flatten(), p) by {
        if covered_by_some(a, p) {
            let j = choose|j: int| 0 <= j < a.len() && covered(#[trigger] a[j], p);
            assert(same_points(a[j], b[j]));
            assert(covered(a[j], p) == covered(b[j], p));
        }
        if covered_by_some(b, p) {
            let j = choose|j: int| 0 <= j < b.len() && covered(#[trigger] b[j], p);
            assert(same_points(a[j], b[j]));
            assert(covered(a[j], p) == covered(b[j], p));
        }
    }
    assert forall|p: T| #[trigger] touched(a.flatten(), p) == touched(b.flatten(), p) by {
        if touched_by_some(a, p) {
            let j = choose|j: int| 0 <= j < a.len() && touched(#[trigger] a[j], p);
            assert(same_points(a[j], b[j]));
            assert(touched(a[j], p) == touched(b[j], p));
        }
        if touched_by_some(b, p) {
            let j = choose|j: int| 0 <= j < b.len() && touched(#[trigger] b[j], p);
            assert(same_points(a[j], b[j]));
            assert(touched(a[j], p) == touched(b[j], p));
        }
    }
    if each_well_formed(a) {
        assert forall|j: int| 0 <= j < b.len() implies all_well_formed(#[trigger] b[j]) by {
            assert(all_well_formed(a[j]));
        }
    }
    if each_well_formed(b) {
        assert forall|j: int| 0 <= j < a.len() implies all_well_formed(#[trigger] a[j]) by {
            assert(all_well_formed(b[j]));
        }
    }
}

/// Indices that ascend strictly and of which there are as many as the bound
/// allows are the numbers from zero.
proof fn lemma_ascending_fills(kept: Seq<int>, n: int, k: int)
    requires
        kept.len() == n,
        forall|a: int, b: int| 0 <= a < b < kept.len() ==> kept[a] < kept[b],
        forall|k: int| 0 <= k < kept.len() ==> 0 <= #[trigger] kept[k] < n,
        0 <= k < n,
    ensures
        kept[k] == k,
{
    lemma_ascending_low(kept, k);
    lemma_ascending_high(kept, n, k);
}

proof fn lemma_ascending_low(kept: Seq<int>, k: int)
    requires
        forall|a: int, b: int| 0 <= a < b < kept.len() ==> kept[a] < kept[b],
        forall|k: int| 0 <= k < kept.len() ==> 0 <= #[trigger] kept[k],
        0 <= k < kept.len(),
    ensures
        kept[k] >= k,
    decreases k,
{
    if k > 0 {
        lemma_ascending_low(kept, k - 1);
        assert(kept[k - 1] < kept[k]);
    }
}

proof fn lemma_ascending_high(kept: Seq<int>, n: int, k: int)
    requires
        kept.len() == n,
        forall|a: int, b: int| 0 <= a < b < kept.len() ==> kept[a] < kept[b],
        forall|k: int| 0 <= k < kept.len() ==> #[trigger] kept[k] < n,
        0 <= k < n,
    ensures
        kept[k] <= k,
    decreases n - k,
{
    if k < n - 1 {
        lemma_ascending_high(kept, n, k + 1);
        assert(kept[k] < kept[k + 1]);
    }
}

} // verus!
