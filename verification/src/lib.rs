//! Sorting algorithms that advance one small step at a time.
//!
//! Each sorter is a state machine: `sort_step` performs one comparison or one
//! exchange on the data and records where it stands, so that several sorters
//! can share a slice and be interleaved step by step.
pub mod sorter;
pub mod bubble;
pub mod heap;
pub mod insertion;
pub mod merge;
pub mod quick;
pub mod selection;
pub mod shell;
pub mod benchmark;
pub mod inversions;
pub mod visualize;
