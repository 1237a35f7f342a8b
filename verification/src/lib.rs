//! Interval algebra over ordered scalars: sorting, merging, insertion,
//! intersection, gaps and overlap depth, together with the binary search and
//! the heaps they lean on.
//!
//! Every contract is stated over the order that `T: Ord` gives its values and
//! holds for types whose comparison operators form a total order (see
//! [`order::is_total_order`]).

pub mod ds;
pub mod intervals;
pub mod order;
pub mod search;
