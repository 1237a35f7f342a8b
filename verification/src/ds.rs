//! Data structures.

pub mod heap;

pub use heap::{MaxHeap, MinHeap};
