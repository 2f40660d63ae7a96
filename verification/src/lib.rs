//! An in-place, comparison-based sorting primitive with a guaranteed
//! `O(n log n)` worst case, meant as the fallback of a larger hybrid sorting
//! engine: a binary max-heap is built over the sequence in linear time, then
//! the maximum is repeatedly extracted until the sequence is ascending under
//! the supplied comparator.

pub mod order;
pub mod sort;
