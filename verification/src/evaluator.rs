use vstd::prelude::*;

use crate::board::Board;

verus! {

/// A move-scoring heuristic.  The solver hands each candidate board and
/// the index of the most recent placement to its evaluator and explores
/// higher-scored moves first.  Implementations come from callers and may
/// rank boards in any way, so nothing further is promised about the
/// value; the search is correct for every ranking.
pub trait Evaluator {
    /// Rank the board reached by placing the most recent queen at
    /// `last_move`.
    fn score(&self, board: &Board, last_move: usize) -> u64;
}

/// The ranking used when no scorer is registered: every move scores the
/// same, and the search falls back to its built-in ordering.
#[derive(Debug, Default, Clone, Copy, PartialEq, Eq)]
pub struct ZeroEvaluator;

impl Evaluator for ZeroEvaluator {
    fn score(&self, _board: &Board, _last_move: usize) -> u64 {
        0
    }
}

} // verus!
