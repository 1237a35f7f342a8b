//! Intervals over an ordered scalar, and collections of them.
//!
//! An interval is read in two ways. As a set of points with extent it is
//! half open, `start <= x < end` ([`Interval::covers`]): this is the reading
//! under which two intervals intersect. As a set of points that it reaches it
//! is closed, `start <= x <= end` ([`Interval::touches`]): this is the
//! reading under which two intervals are merged, so that intervals which
//! share only a boundary point become one.

pub mod insert;
pub mod intersection;
pub mod many;
pub mod measure;
pub mod merge_iters;
pub mod merge_overlapping;
pub mod model;
pub mod overlaps;
pub mod sizes;
pub mod sort;
pub mod vec;

pub use insert::{
    insert_interval_and_merge_pre_sorted, insert_interval_and_merge_pre_sorted_linear,
    sort_and_insert_interval_and_merge, sort_and_insert_interval_and_merge_linear,
};
pub use intersection::{intersection_2_interval_iters, intersection_interval_iters};
pub use merge_iters::{merge_2_interval_iters, merge_interval_iters};
pub use merge_overlapping::{
    merge_overlapping, merge_overlapping_from_2_interval_iters_pre_sorted,
    merge_overlapping_from_interval_iters_pre_sorted, sort_and_merge_overlapping,
    sort_and_merge_overlapping_from_2_interval_iters,
    sort_and_merge_overlapping_from_interval_iters,
};
pub use overlaps::{
    clip_overlaps, has_overlaps, has_overlaps_interval_iters, max_overlaps_depth,
    max_overlaps_interval_iters, remove_overlaps,
};
pub use sizes::{get_gaps_intervals, get_length_of_each_interval};
pub use sort::{sort_by_end, sort_by_start};
pub use vec::IntervalVec;

use crate::order::{le, lt};
use core::ops::Sub;
use vstd::prelude::*;
use vstd::std_specs::convert::FromSpecImpl;
use vstd::std_specs::ops::SubSpec;

verus! {

/// The range from `start` to `end`.
#[derive(Clone, Copy, PartialEq, Eq, Debug)]
pub struct Interval<T> where T: Copy + Ord {
    pub start: T,
    pub end: T,
}

impl<T> Interval<T> where T: Copy + Ord {
    /// The interval does not end before it starts.
    pub open spec fn well_formed(self) -> bool {
        le(self.start, self.end)
    }

    /// `x` lies in the extent of the interval: `start <= x < end`.
    pub open spec fn covers(self, x: T) -> bool {
        le(self.start, x) && lt(x, self.end)
    }

    /// `x` lies in the interval or on its boundary: `start <= x <= end`.
    pub open spec fn touches(self, x: T) -> bool {
        le(self.start, x) && le(x, self.end)
    }
}

impl<T> Interval<T> where T: Copy + Ord + Sub<Output = T> {
    /// The subtraction of `T` can take the start of the interval from its
    /// end.
    pub open spec fn measurable(self) -> bool {
        self.end.sub_req(self.start)
    }

    /// What the subtraction of `T` gives for the end of the interval less
    /// its start.
    pub open spec fn extent(self) -> T {
        self.end.sub_spec(self.start)
    }

    /// The length of the interval: its end less its start.
    pub fn length(&self) -> (r: T)
        requires
            self.measurable(),
        ensures
            T::obeys_sub_spec() ==> r == self.extent(),
    {
        self.end - self.start
    }
}

impl<T> From<(T, T)> for Interval<T> where T: Copy + Ord {
    fn from(value: (T, T)) -> (r: Self) {
        Self { start: value.0, end: value.1 }
    }
}

impl<T> FromSpecImpl<(T, T)> for Interval<T> where T: Copy + Ord {
    open spec fn obeys_from_spec() -> bool {
        true
    }

    open spec fn from_spec(value: (T, T)) -> Self {
        Interval { start: value.0, end: value.1 }
    }
}

impl<T> From<Interval<T>> for (T, T) where T: Copy + Ord {
    fn from(value: Interval<T>) -> (r: (T, T)) {
        (value.start, value.end)
    }
}

impl<T> FromSpecImpl<Interval<T>> for (T, T) where T: Copy + Ord {
    open spec fn obeys_from_spec() -> bool {
        true
    }

    open spec fn from_spec(value: Interval<T>) -> (T, T) {
        (value.start, value.end)
    }
}

/// How two neighbouring intervals that share a boundary are regarded.
#[derive(Clone, Copy, PartialEq, Eq, Debug, Default)]
pub enum NeighborStrategy {
    /// As one interval.
    #[default]
    Same,
    /// As two.
    Distinct,
}

} // verus!
