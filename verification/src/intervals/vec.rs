//! A collection of intervals that is kept canonical.

use crate::intervals::insert::insert_interval_and_merge_pre_sorted;
use crate::intervals::intersection::{intersection_interval_iters, is_intersection_of_all};
use crate::intervals::many::{
    all_intervals, covered_by_each, each_canonical, each_sorted_by_start, views_of,
};
use crate::intervals::merge_iters::merge_interval_iters;
use crate::intervals::merge_overlapping::sort_and_merge_overlapping;
use crate::intervals::model::{all_well_formed, covered, is_canonical, is_merged};
use crate::intervals::sizes::{
    gaps_of, get_gaps_intervals, get_length_of_each_interval, lies_between,
};
use crate::intervals::Interval;
use crate::order::{is_total_order, le, lemma_total_order, lt};
use core::ops::{Index, Sub};
use vstd::prelude::*;
use vstd::std_specs::convert::FromSpecImpl;
use vstd::std_specs::ops::SubSpec;

verus! {

/// A collection of intervals that its operations keep canonical: sorted by
/// start, with no two intervals that overlap or touch.
pub struct IntervalVec<T> where T: Copy + Ord {
    v: Vec<Interval<T>>,
}

impl<T> View for IntervalVec<T> where T: Copy + Ord {
    type V = Seq<Interval<T>>;

    /// The intervals of the collection, in order.
    closed spec fn view(&self) -> Seq<Interval<T>> {
        self.v@
    }
}

/// What is left of `s` when the intervals are dropped for which `keep` holds
/// `false` at their place.
pub open spec fn kept_of<T: Copy + Ord>(s: Seq<Interval<T>>, keep: Seq<bool>) -> Seq<Interval<T>>
    decreases s.len(),
{
    if s.len() == 0 {
        Seq::empty()
    } else if keep.last() {
        kept_of(s.drop_last(), keep.drop_last()).push(s.last())
    } else {
        kept_of(s.drop_last(), keep.drop_last())
    }
}

/// `keep` holds an answer of `f` for each interval of `s`.
pub open spec fn answers_of<T: Copy + Ord, F: Fn(&Interval<T>) -> bool>(
    f: F,
    s: Seq<Interval<T>>,
    keep: Seq<bool>,
) -> bool {
    &&& keep.len() == s.len()
    &&& forall|i: int| 0 <= i < s.len() ==> call_ensures(f, (&s[i],), #[trigger] keep[i])
}

/// `sub` holds intervals of `s` in the order in which `s` holds them: it is
/// `s` with some intervals left out.
pub open spec fn is_selection_of<T: Copy + Ord>(
    sub: Seq<Interval<T>>,
    s: Seq<Interval<T>>,
) -> bool {
    exists|at: Seq<int>|
        #![trigger at.len()]
        at.len() == sub.len() && (forall|k: int|
            0 <= k < at.len() ==> 0 <= #[trigger] at[k] < s.len() && sub[k] == s[at[k]]) && (forall|
            a: int,
            b: int,
        | 0 <= a < b < at.len() ==> #[trigger] at[a] < #[trigger] at[b])
}

/// A selection of a canonical collection of well-formed intervals is one too.
pub proof fn lemma_selection_is_canonical<T: Copy + Ord>(sub: Seq<Interval<T>>, s: Seq<Interval<T>>)
    requires
        is_selection_of(sub, s),
    ensures
        is_canonical(s) ==> is_canonical(sub),
        all_well_formed(s) ==> all_well_formed(sub),
{
    let at = choose|at: Seq<int>|
        #![trigger at.len()]
        at.len() == sub.len() && (forall|k: int|
            0 <= k < at.len() ==> 0 <= #[trigger] at[k] < s.len() && sub[k] == s[at[k]]) && (forall|
            a: int,
            b: int,
        | 0 <= a < b < at.len() ==> #[trigger] at[a] < #[trigger] at[b]);
    if is_canonical(s) {
        assert forall|i: int, j: int| #![trigger sub[i], sub[j]] 0 <= i <= j < sub.len() implies le(
            sub[i].start,
            sub[j].start,
        ) by {
            if i < j {
                assert(at[i] < at[j]);
            }
            assert(le(s[at[i]].start, s[at[j]].start));
        }
        assert forall|i: int, j: int| #![trigger sub[i], sub[j]] 0 <= i < j < sub.len() implies lt(
            sub[i].end,
            sub[j].start,
        ) by {
            assert(at[i] < at[j]);
            assert(lt(s[at[i]].end, s[at[j]].start));
        }
    }
    if all_well_formed(s) {
        assert forall|i: int| 0 <= i < sub.len() implies (#[trigger] sub[i]).well_formed() by {
            assert(s[at[i]].well_formed());
        }
    }
}

impl<T> IntervalVec<T> where T: Copy + Ord {
    /// The collection is canonical and its intervals are well formed.
    pub open spec fn is_valid(&self) -> bool {
        is_canonical(self@) && all_well_formed(self@)
    }

    /// An empty collection.
    pub fn new() -> (made: Self)
        ensures
            made@ == Seq::<Interval<T>>::empty(),
            made.is_valid(),
    {
        Self { v: Vec::new() }
    }

    /// The intersection of any number of canonical collections.
    pub fn new_intersection(intervals: &Vec<Vec<Interval<T>>>) -> (made: Self)
        ensures
            is_total_order::<T>() && each_canonical(views_of(intervals@)) ==> {
                &&& is_intersection_of_all(made@, views_of(intervals@))
                &&& made.is_valid()
                &&& forall|p: T| #[trigger]
                    covered(made@, p) == (intervals@.len() > 0 && covered_by_each(
                        views_of(intervals@),
                        p,
                    ))
            },
    {
        Self { v: intersection_interval_iters(intervals) }
    }

    /// Inserts `interval` and merges it with the intervals that it overlaps
    /// or touches.
    pub fn insert(&mut self, interval: Interval<T>)
        ensures
            is_total_order::<T>() && old(self).is_valid() && interval.well_formed() ==> is_merged(
                final(self)@,
                old(self)@.push(interval),
            ) && final(self).is_valid(),
    {
        insert_interval_and_merge_pre_sorted(&mut self.v, interval);
    }

    /// Takes the interval at `index` out of the collection.
    pub fn remove(&mut self, index: usize) -> (removed: Interval<T>)
        requires
            index < old(self)@.len(),
        ensures
            removed == old(self)@[index as int],
            final(self)@ == old(self)@.remove(index as int),
            old(self).is_valid() ==> final(self).is_valid(),
    {
        let removed = self.v.remove(index);
        proof {
            let s = old(self)@;
            let at = Seq::new((s.len() - 1) as nat, |k: int| if k < index { k } else { k + 1 });
            assert(at.len() == self@.len());
            assert(is_selection_of(self@, s));
            lemma_selection_is_canonical(self@, s);
        }
        removed
    }

    /// The intervals of the collection.
    pub fn inner_vec(&self) -> (inner: &Vec<Interval<T>>)
        ensures
            inner@ == self@,
    {
        &self.v
    }

    /// The intervals of the collection, to be changed in place. Whether the
    /// collection is canonical afterwards lies with the one who changes it.
    pub fn inner_vec_mut(&mut self) -> (inner: &mut Vec<Interval<T>>)
        ensures
            inner@ == old(self)@,
            final(self)@ == final(inner)@,
    {
        &mut self.v
    }

    /// The gaps between the intervals of the collection, as a collection of
    /// its own.
    pub fn gaps(&self) -> (between: Self)
        ensures
            is_total_order::<T>() ==> is_merged(between@, gaps_of(self@)),
            is_total_order::<T>() && self.is_valid() ==> between.is_valid() && forall|p: T|
                #[trigger] covered(between@, p) == lies_between(self@, p),
    {
        let mut gaps = get_gaps_intervals(&self.v);
        let ghost raw = gaps@;
        sort_and_merge_overlapping(&mut gaps);
        proof {
            if is_total_order::<T>() && self.is_valid() {
                lemma_total_order::<T>();
                assert forall|p: T| #[trigger] covered(gaps@, p) == lies_between(self@, p) by {
                    assert(covered(gaps@, p) == covered(raw, p));
                }
                assert forall|i: int|
                    0 <= i < raw.len() implies (#[trigger] raw[i]).well_formed() by {
                    assert(lt(raw[i].start, raw[i].end));
                }
            }
        }
        Self { v: gaps }
    }

    /// Empties the collection.
    pub fn clear(&mut self)
        ensures
            final(self)@ == Seq::<Interval<T>>::empty(),
            final(self).is_valid(),
    {
        self.v.clear()
    }

    /// Whether the collection holds no interval.
    pub fn is_empty(&self) -> (empty: bool)
        ensures
            empty == (self@.len() == 0),
    {
        self.v.is_empty()
    }

    /// The number of intervals in the collection.
    pub fn len(&self) -> (n: usize)
        ensures
            n == self@.len(),
    {
        self.v.len()
    }

    /// Takes the last interval out of the collection; `None` where the
    /// collection is empty.
    pub fn pop(&mut self) -> (last: Option<Interval<T>>)
        ensures
            old(self)@.len() == 0 ==> last is None && final(self)@ == old(self)@,
            old(self)@.len() > 0 ==> last == Some(old(self)@.last()) && final(self)@ == old(
                self,
            )@.drop_last(),
            old(self).is_valid() ==> final(self).is_valid(),
    {
        let last = self.v.pop();
        proof {
            let s = old(self)@;
            let at = Seq::new(self@.len(), |k: int| k);
            assert(at.len() == self@.len());
            assert(is_selection_of(self@, s));
            lemma_selection_is_canonical(self@, s);
        }
        last
    }

    /// Keeps the intervals of which `f` answers `true`, in their order, and
    /// drops the others.
    pub fn retain<F>(&mut self, f: F) where F: Fn(&Interval<T>) -> bool
        requires
            forall|i: int|
                0 <= i < old(self)@.len() ==> call_requires(f, (&#[trigger] old(self)@[i],)),
        ensures
            exists|keep: Seq<bool>| #[trigger]
                answers_of(f, old(self)@, keep) && final(self)@ == kept_of(old(self)@, keep),
            is_selection_of(final(self)@, old(self)@),
            old(self).is_valid() ==> final(self).is_valid(),
    {
        let ghost s = self.v@;
        let ghost mut keep: Seq<bool> = Seq::empty();
        let ghost mut at: Seq<int> = Seq::empty();
        let n = self.v.len();
        let mut write: usize = 0;
        let mut read: usize = 0;
        proof {
            assert forall|i: int|
                0 <= i < s.len() implies call_requires(f, (&#[trigger] s[i],)) by {
                assert(s[i] == old(self)@[i]);
            }
            assert(s.take(0) =~= Seq::<Interval<T>>::empty());
            assert(self.v@.take(0) =~= Seq::<Interval<T>>::empty());
        }
        while read < n
            invariant
                n == self.v@.len(),
                n == s.len(),
                write <= read <= n,
                forall|i: int| 0 <= i < s.len() ==> call_requires(f, (&#[trigger] s[i],)),
                forall|i: int| read <= i < n ==> #[trigger] self.v@[i] == s[i],
                answers_of(f, s.take(read as int), keep),
                self.v@.take(write as int) == kept_of(s.take(read as int), keep),
                at.len() == write,
                forall|k: int|
                    0 <= k < at.len() ==> 0 <= #[trigger] at[k] < read && self.v@[k] == s[at[k]],
                forall|a: int, b: int|
                    0 <= a < b < at.len() ==> #[trigger] at[a] < #[trigger] at[b],
            decreases n - read,
        {
            let current = self.v[read];
            let kept = f(&current);
            let ghost before = self.v@;
            if kept {
                self.v[write] = current;
            }
            proof {
                let prefix = s.take(read as int);
                let longer = s.take(read + 1);
                let answers = keep.push(kept);
                assert(longer.drop_last() =~= prefix);
                assert(answers.drop_last() =~= keep);
                assert(longer.last() == current);
                assert forall|i: int| 0 <= i < longer.len() implies call_ensures(
                    f,
                    (&longer[i],),
                    #[trigger] answers[i],
                ) by {
                    if i < read {
                        assert(call_ensures(f, (&prefix[i],), keep[i]));
                    }
                }
                if kept {
                    assert(self.v@.take(write + 1) =~= before.take(write as int).push(current));
                    at = at.push(read as int);
                } else {
                    assert(self.v@.take(write as int) =~= before.take(write as int));
                }
                keep = answers;
            }
            if kept {
                write += 1;
            }
            read += 1;
        }
        self.v.truncate(write);
        proof {
            assert(s.take(n as int) =~= s);
            assert(self.v@ =~= kept_of(s, keep));
            assert(answers_of(f, s, keep));
            assert(s == old(self)@);
            assert(answers_of(f, old(self)@, keep) && self@ == kept_of(old(self)@, keep));
            assert(at.len() == self@.len());
            assert(is_selection_of(self@, s));
            lemma_selection_is_canonical(self@, s);
        }
    }

    /// Drops the intervals from the place `len` on; a collection of at most
    /// `len` intervals is left as it is.
    pub fn truncate(&mut self, len: usize)
        ensures
            len <= old(self)@.len() ==> final(self)@ == old(self)@.take(len as int),
            len > old(self)@.len() ==> final(self)@ == old(self)@,
            old(self).is_valid() ==> final(self).is_valid(),
    {
        self.v.truncate(len);
        proof {
            let s = old(self)@;
            let at = Seq::new(self@.len(), |k: int| k);
            assert(at.len() == self@.len());
            assert(is_selection_of(self@, s));
            lemma_selection_is_canonical(self@, s);
        }
    }
}

impl<T> IntervalVec<T> where T: Copy + Ord + Sub<Output = T> {
    /// The length of each interval of the collection, in order.
    pub fn interval_lengths(&self) -> (lengths: Vec<T>)
        requires
            forall|i: int| 0 <= i < self@.len() ==> (#[trigger] self@[i]).measurable(),
        ensures
            lengths@.len() == self@.len(),
            T::obeys_sub_spec() ==> forall|i: int|
                0 <= i < self@.len() ==> #[trigger] lengths@[i] == self@[i].extent(),
    {
        proof {
            assert forall|i: int|
                0 <= i < self.v@.len() implies (#[trigger] self.v@[i]).measurable() by {
                assert(self@[i].measurable());
            }
        }
        get_length_of_each_interval(&self.v)
    }
}

impl<T> Index<usize> for IntervalVec<T> where T: Copy + Ord {
    type Output = Interval<T>;

    fn index(&self, index: usize) -> (interval: &Interval<T>)
        ensures
            *interval == self@[index as int],
    {
        &self.v[index]
    }
}

impl<T> vstd::std_specs::core::IndexSpecImpl<usize> for IntervalVec<T> where T: Copy + Ord {
    open spec fn index_req(&self, index: &usize) -> bool {
        *index < self@.len()
    }
}

impl<T> From<Vec<Interval<T>>> for IntervalVec<T> where T: Copy + Ord {
    /// The merged form of `value`.
    fn from(value: Vec<Interval<T>>) -> (made: Self)
        ensures
            is_total_order::<T>() ==> is_merged(made@, value@),
    {
        let mut value = value;
        sort_and_merge_overlapping(&mut value);
        Self { v: value }
    }
}

impl<T> FromSpecImpl<Vec<Interval<T>>> for IntervalVec<T> where T: Copy + Ord {
    open spec fn obeys_from_spec() -> bool {
        false
    }

    closed spec fn from_spec(value: Vec<Interval<T>>) -> Self {
        IntervalVec { v: value }
    }
}

impl<T> From<Vec<Vec<Interval<T>>>> for IntervalVec<T> where T: Copy + Ord {
    /// The merged form of the collections of `value`, each sorted by start,
    /// taken together.
    fn from(value: Vec<Vec<Interval<T>>>) -> (made: Self)
        ensures
            is_total_order::<T>() && each_sorted_by_start(views_of(value@)) ==> is_merged(
                made@,
                all_intervals(value@),
            ),
    {
        Self { v: merge_interval_iters(&value) }
    }
}

impl<T> FromSpecImpl<Vec<Vec<Interval<T>>>> for IntervalVec<T> where T: Copy + Ord {
    open spec fn obeys_from_spec() -> bool {
        false
    }

    closed spec fn from_spec(value: Vec<Vec<Interval<T>>>) -> Self {
        arbitrary()
    }
}

} // verus!
