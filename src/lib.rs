//! Solutions to a handful of small puzzles over in-memory arrays, each proved
//! against a contract: the fun-value reduction over a forest of parent
//! pointers, the search for an interval that overlaps no other, the levelling
//! of buildings, and bounds on the passages of a dungeon.

use vstd::prelude::*;

pub mod buildings;
pub mod chain;
pub mod dungeon;
pub mod intervals;

verus! {

/// Which of two solutions to run: the direct one, which compares every pair
/// in `O(N * N)`, or the one that sorts first, in `O(N log N)`.
#[derive(Debug, Clone, Copy, PartialEq, Eq, Structural)]
pub enum Mode {
    Naive,
    DynamicProgramming,
}

} // verus!
