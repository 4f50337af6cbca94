//! A Sudoku library: boards, rule sets (rows, columns, boxes, knight's move,
//! thermometers), an arbiter that referees moves, and solvers that search
//! for completions of a board.

mod arbiter;
mod board;
mod description;
pub mod optimized;
mod rules;
mod solver;

pub use board::{col_of, count_true, has_gap, is_cell, lemma_digit_value, lemma_of_value, row_of, Board, Digit, DigitSet};
pub use rules::{knight_apart, lemma_knight_rule, lemma_rules_local, lemma_rules_monotone, lemma_rules_ok_monotone, lemma_standard_rules, standard_rules, standard_sudoku_rules, cell_at, lemma_cell_coords, lemma_coords_cell, lines_on_grid, lines_view, sub_grid, KnightsMove, Rules, Line, ThermalSudoku, SudokuBox, SudokuColumn, SudokuRow, SudokuRule};
pub use description::{cell_of_number, lemma_cell_of_number, lemma_number_of_cell, lemma_number_roundtrip, number_of_cell, BoardDescription, GameDescription, RulesDescription};
pub use arbiter::{apply_moves, lemma_apply_moves_effect, lemma_on_grid_reaches, moves_on_grid, reaches_grid, solved, step_outcome, update_outcome, Arbiter, UpdateResult};
pub use solver::{first_solution, is_solution, lemma_first_solution_unique, lemma_is_first_solution, lex_lt, solvable, two_solutions, unique_solution, Action, BoardStatus, DigitPos, MoveError, parse_move, Solver, Verifier};
pub use solver::backtracking::BacktrackingSolver;
pub use solver::constraint::{all_stuck, gap_total, gave_up, keeps_solutions, guesses_stuck, record_ok, stalled, stuck, stuck_in, ConstraintSolver, StuckRecord};
pub use solver::util::{after_move, filled_upto, lemma_moves_reach_solution, lemma_moves_on_grid, make_move_from_solution, move_at, moves_from, rules_or_standard, solve, verify, SolveError};
