//! Verified core of an N-Queens solver: an incrementally maintained board
//! with per-cell attack-line flags, a rotation-based canonicalizer, and a
//! heuristic-guided backtracking search with memoized dead ends.
use vstd::prelude::*;

mod cell;
mod geometry;
mod evaluator;
mod normalized;
mod polar;
mod solver;
mod board;

pub use cell::Cell;
pub use evaluator::{Evaluator, ZeroEvaluator};
pub use normalized::NormalizedBoard;
pub use solver::{Solution, Solver};
pub use geometry::Boundaries;
pub use polar::PolarScan;
pub use board::Board;

verus! {

} // verus!
