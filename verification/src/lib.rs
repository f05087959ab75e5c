//! A comparator-driven bitonic sorter for sequences whose length is a power
//! of two, verified end to end: the entry points reject any other length
//! without touching the data, and on every accepted input they return a
//! permutation of it, sorted in the requested direction with respect to
//! every total preorder the comparator's answers respect.
//!
//! The network splits its window in half at every level, sorts the halves in
//! opposite directions, and merges the bitonic whole with recursive
//! compare-and-swap passes over disjoint index ranges. The two half-window
//! recursions of each split never touch the other's range, which is what
//! lets an execution layer run them concurrently; the threshold policy that
//! decides when to do so lives here, the fork-join scheduling itself outside
//! the verified core.

use vstd::prelude::*;

pub mod bitonic;
pub mod order;
pub mod utils;
pub mod zero_one;

verus! {

/// Target direction for a whole-sequence sort.
///
/// The direction is never global state: the recursive phases thread their own
/// direction flag through every call, and the builder phase deliberately sorts
/// the two halves of its window in opposite directions.
#[derive(Clone, Copy, PartialEq, Eq, Debug)]
pub enum SortOrder {
    Ascending,
    Descending,
}

/// The single error of this crate: the sequence handed to `sort` or `sort_by`
/// does not have a power-of-two length, so the bitonic network cannot split it
/// evenly at every level. It carries the offending length.
///
/// A length of zero is accepted as trivially sortable and never produces this
/// error.
#[derive(Clone, Copy, PartialEq, Eq, Debug)]
pub struct ShapeError {
    /// The length that was observed at the entry boundary.
    pub len: usize,
}

} // verus!
