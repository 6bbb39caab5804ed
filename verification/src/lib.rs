//! Sorting algorithms as state machines that advance one step per call, so
//! that a caller can draw the list between any two steps.
//!
//! - [`sorting_algorithms`] holds the algorithms and the trait they share.
//!   The merge sort keeps a tree of segments, and each step splits one leaf
//!   or merges two; what holds of every step is proved in
//!   [`sorting_algorithms::merge_sort_laws`].
//! - [`program_state`] holds what a front end keeps between two frames, and
//!   what each of its controls does to it.
//! - [`bars`] lays the segments out as the slots of a bar chart.

pub mod bars;
pub mod program_state;
pub mod sorting_algorithms;
