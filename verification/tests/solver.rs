use reginae::{Board, Evaluator, Solution, Solver, ZeroEvaluator};

/// Ranks moves by how close they land to the end of the board.
struct HighIndex;

impl Evaluator for HighIndex {
    fn score(&self, board: &Board, _last_move: usize) -> u64 {
        board.sorted_queens().last().copied().unwrap_or(0) as u64
    }
}

/// An empty eight-wide board with a corner seed must reach a full
/// placement even without any registered evaluator.
#[test]
fn eight_queens_from_corner() {
    let mut board = Board::new(8);
    board.toggle(0);
    let mut solver = Solver::new(ZeroEvaluator);
    let Solution {
        board,
        success,
        jumps,
    } = solver.solve(board);
    assert!(success);
    assert!(board.is_solved());
    assert_eq!(board.sorted_queens().len(), 8);
    assert!(board.is_queen(0));
    assert!(jumps > 0);
}

#[test]
fn eight_queens_from_empty() {
    let mut solver = Solver::new(ZeroEvaluator);
    let solution = solver.solve(Board::new(8));
    assert!(solution.success);
    assert!(solution.board.is_solved());
}

/// Two runs from the same board with the same evaluator and a fresh
/// dead-end store produce identical boards and identical jump counts.
#[test]
fn solver_is_deterministic() {
    let mut board = Board::new(8);
    board.toggle(0);
    let first = Solver::new(ZeroEvaluator).solve(board.clone());
    let second = Solver::new(ZeroEvaluator).solve(board);
    assert_eq!(first, second);

    let mut board = Board::new(6);
    board.toggle(9);
    let first = Solver::new(HighIndex).solve(board.clone());
    let second = Solver::new(HighIndex).solve(board);
    assert_eq!(first, second);
}

#[test]
fn solver_accepts_custom_evaluator() {
    let mut solver = Solver::new(HighIndex);
    let solution = solver.solve(Board::new(8));
    assert!(solution.success);
    assert!(solution.board.is_solved());
}

/// A three-wide board has no solution: the search exhausts and hands the
/// board back unchanged.
#[test]
fn three_queens_is_exhausted() {
    let mut board = Board::new(3);
    board.toggle(0);
    let expected = board.clone();
    let mut solver = Solver::new(ZeroEvaluator);
    let solution = solver.solve(board);
    assert!(!solution.success);
    assert_eq!(solution.board, expected);
    assert!(solution.jumps > 0);
}

/// An exhausted empty board comes back empty: the probe queen the search
/// seeds it with is taken out again.
#[test]
fn exhausted_empty_board_comes_back_empty() {
    let mut solver = Solver::new(ZeroEvaluator);
    let solution = solver.solve(Board::new(2));
    assert!(!solution.success);
    assert!(solution.board.is_empty());
    assert_eq!(solution.board, Board::new(2));
}

/// Failure restores the caller's orientation even when normalization
/// turned the board.
#[test]
fn failure_restores_orientation() {
    let mut board = Board::new(2);
    board.toggle(3);
    let expected = board.clone();
    let mut solver = Solver::new(ZeroEvaluator);
    let solution = solver.solve(board);
    assert!(!solution.success);
    assert_eq!(solution.board, expected);
}

/// A board that is already solved comes back at once, without any
/// expansion.
#[test]
fn solved_board_returns_immediately() {
    let mut board = Board::new(1);
    board.toggle(0);
    let mut solver = Solver::new(ZeroEvaluator);
    let solution = solver.solve(board);
    assert!(solution.success);
    assert_eq!(solution.jumps, 0);
    assert_eq!(solution.board.sorted_queens(), vec![0]);
}

/// The dead-end store persists across calls on one solver: a second
/// search of the same hopeless board still terminates and fails.
#[test]
fn depleted_store_persists() {
    let mut solver = Solver::new(ZeroEvaluator);
    let first = solver.solve(Board::new(3));
    let second = solver.solve(Board::new(3));
    assert!(!first.success);
    assert!(!second.success);
    assert!(second.jumps >= first.jumps);
}

#[test]
fn zero_evaluator_scores_zero() {
    let board = Board::new(4);
    assert_eq!(ZeroEvaluator.score(&board, 0), 0);
}

/// Success keeps every queen the caller had already placed.
#[test]
fn solution_extends_initial_queens() {
    let mut board = Board::new(8);
    board.toggle(12);
    let mut solver = Solver::new(ZeroEvaluator);
    let solution = solver.solve(board);
    assert!(solution.success);
    assert!(solution.board.sorted_queens().contains(&12));
}
