//! Model and exhaustive backtracking solver for the color-sort puzzle.
use vstd::prelude::*;

pub mod color;
pub mod tube;
pub mod puzzle;
pub mod solver;

verus! {

} // verus!
