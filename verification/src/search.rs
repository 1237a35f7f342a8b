//! Searching in ordered slices.

pub mod binary_search;

pub use binary_search::{binary_search, binary_search_with};

use vstd::prelude::*;

verus! {

/// The position that a search has found, as a mathematical integer.
pub open spec fn position(found: Option<usize>) -> Option<int> {
    match found {
        Some(i) => Some(i as int),
        None => None,
    }
}

/// Where a bisection of the positions from `lo` up to, not including, `hi`
/// ends: it looks at the position in the middle (the lower one of two),
/// goes on above it where `too_small` holds there and below it where
/// `too_large` holds there, and has found the position where neither holds.
pub open spec fn bisect(
    too_small: spec_fn(int) -> bool,
    too_large: spec_fn(int) -> bool,
    lo: int,
    hi: int,
) -> Option<int>
    decreases hi - lo,
{
    if lo >= hi {
        None
    } else {
        let middle = lo + (hi - 1 - lo) / 2;
        if too_small(middle) {
            bisect(too_small, too_large, middle + 1, hi)
        } else if too_large(middle) {
            bisect(too_small, too_large, lo, middle)
        } else {
            Some(middle)
        }
    }
}

/// [`bisect`] between two indices.
pub open spec fn bisect_between(
    too_small: spec_fn(int) -> bool,
    too_large: spec_fn(int) -> bool,
    lo: usize,
    hi: usize,
) -> Option<int> {
    bisect(too_small, too_large, lo as int, hi as int)
}

/// [`bisect`] of all positions below `len`.
pub open spec fn bisect_all(
    too_small: spec_fn(int) -> bool,
    too_large: spec_fn(int) -> bool,
    len: nat,
) -> Option<int> {
    bisect(too_small, too_large, 0, len as int)
}

/// The positions from `lo` up to `hi` fall into three runs: those where
/// `too_small` holds, then those where neither holds, then those where
/// `too_large` holds.
pub open spec fn partitioned(
    too_small: spec_fn(int) -> bool,
    too_large: spec_fn(int) -> bool,
    lo: int,
    hi: int,
) -> bool {
    &&& forall|i: int| lo <= i < hi ==> !(#[trigger] too_small(i) && too_large(i))
    &&& forall|i: int, j: int|
        lo <= i <= j < hi && #[trigger] too_small(j) ==> #[trigger] too_small(i)
    &&& forall|i: int, j: int|
        lo <= i <= j < hi && #[trigger] too_large(i) ==> #[trigger] too_large(j)
}

/// [`partitioned`] for all positions below `len`.
pub open spec fn partitioned_all(
    too_small: spec_fn(int) -> bool,
    too_large: spec_fn(int) -> bool,
    len: nat,
) -> bool {
    partitioned(too_small, too_large, 0, len as int)
}

/// A bisection finds a position only within its bounds and only where
/// neither `too_small` nor `too_large` holds.
pub proof fn lemma_bisect_found(
    too_small: spec_fn(int) -> bool,
    too_large: spec_fn(int) -> bool,
    lo: int,
    hi: int,
)
    ensures
        bisect(too_small, too_large, lo, hi) matches Some(k) ==> lo <= k < hi && !too_small(k)
            && !too_large(k),
    decreases hi - lo,
{
    if lo < hi {
        let middle = lo + (hi - 1 - lo) / 2;
        if too_small(middle) {
            lemma_bisect_found(too_small, too_large, middle + 1, hi);
        } else if too_large(middle) {
            lemma_bisect_found(too_small, too_large, lo, middle);
        }
    }
}

/// Over partitioned positions a bisection finds a position wherever there is
/// one at which neither `too_small` nor `too_large` holds.
pub proof fn lemma_bisect_complete(
    too_small: spec_fn(int) -> bool,
    too_large: spec_fn(int) -> bool,
    lo: int,
    hi: int,
    k: int,
)
    requires
        partitioned(too_small, too_large, lo, hi),
        lo <= k < hi,
        !too_small(k),
        !too_large(k),
    ensures
        bisect(too_small, too_large, lo, hi) is Some,
    decreases hi - lo,
{
    let middle = lo + (hi - 1 - lo) / 2;
    if too_small(middle) {
        if k <= middle {
            assert(too_small(k));
        }
        lemma_bisect_complete(too_small, too_large, middle + 1, hi, k);
    } else if too_large(middle) {
        if middle <= k {
            assert(too_large(k));
        }
        lemma_bisect_complete(too_small, too_large, lo, middle, k);
    }
}

/// [`lemma_bisect_complete`] for all positions below `len`.
pub proof fn lemma_bisect_all_complete(
    too_small: spec_fn(int) -> bool,
    too_large: spec_fn(int) -> bool,
    len: nat,
    k: int,
)
    requires
        partitioned_all(too_small, too_large, len),
        0 <= k < len,
        !too_small(k),
        !too_large(k),
    ensures
        bisect_all(too_small, too_large, len) is Some,
{
    lemma_bisect_complete(too_small, too_large, 0, len as int, k);
}

} // verus!
