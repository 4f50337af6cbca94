use sudoku::optimized::{is_minimal_standard, solve_standard, verify_standard};
use sudoku::{
    make_move_from_solution, solve, standard_sudoku_rules, verify, Action, Arbiter, BacktrackingSolver, Board,
    BoardStatus, ConstraintSolver, Rules, SolveError, Solver, Verifier,
};

const PUZZLE: [u32; 81] = [
    0, 0, 0, 2, 0, 9, 0, 0, 0,
    9, 7, 6, 0, 0, 0, 2, 0, 5,
    0, 0, 5, 6, 7, 0, 1, 0, 8,
    0, 8, 0, 9, 0, 0, 0, 0, 7,
    7, 0, 0, 4, 3, 8, 0, 0, 2,
    6, 0, 0, 0, 0, 7, 0, 8, 0,
    5, 0, 8, 0, 1, 2, 3, 0, 0,
    1, 0, 2, 0, 0, 0, 5, 7, 9,
    0, 0, 0, 5, 0, 3, 0, 0, 0,
];

const SOLUTION: [u32; 81] = [
    8, 4, 1, 2, 5, 9, 7, 3, 6,
    9, 7, 6, 3, 8, 1, 2, 4, 5,
    3, 2, 5, 6, 7, 4, 1, 9, 8,
    2, 8, 3, 9, 6, 5, 4, 1, 7,
    7, 1, 9, 4, 3, 8, 6, 5, 2,
    6, 5, 4, 1, 2, 7, 9, 8, 3,
    5, 9, 8, 7, 1, 2, 3, 6, 4,
    1, 3, 2, 8, 4, 6, 5, 7, 9,
    4, 6, 7, 5, 9, 3, 8, 2, 1,
];

fn lib_solver_harness<T: Solver>(mut solver: T) {
    let mut board: Board = Board::make(PUZZLE);
    let rules = Arbiter::new(standard_sudoku_rules());
    let solution: Board = Board::make(SOLUTION);
    loop {
        let action = solver.make_move(&board, &rules);
        assert!(rules.update(&mut board, action).is_ok());
        assert!(rules.check(&board));
        if rules.is_solved(&board) {
            break;
        }
    }
    assert_eq!(board, solution);
}

fn solver_harness<T: Solver>(mut solver: T) {
    let mut board: Board = Board::make(PUZZLE);
    let rules = Arbiter::new(Rules::standard_sudoku_rules());
    let solution: Board = Board::make(SOLUTION);
    loop {
        let action = solver.make_move(&board, &rules);
        assert!(rules.update(&mut board, action).is_ok());
        assert!(rules.check(&board));
        if rules.is_solved(&board) {
            break;
        }
    }
    assert_eq!(board, solution);
}

#[test]
fn lib_test_backtracking_solver() {
    let solver = BacktrackingSolver::default();
    lib_solver_harness(solver);
}

#[test]
fn lib_test_verify_board() {
    let board: Board = Board::make(PUZZLE);
    assert_eq!(verify(board, None), BoardStatus::OneSolution);

    let board: Board = Board::make(SOLUTION);
    assert_eq!(verify(board, None), BoardStatus::AlreadySolved);

    let board: Board = Board::make([1; 81]);
    assert_eq!(verify(board, None), BoardStatus::Unsolvable);
}

#[test]
fn solver_test_backtracking_solver() {
    let solver = BacktrackingSolver::default();
    solver_harness(solver);
}

#[test]
fn test_constraint_solver() {
    let solver = ConstraintSolver::default();
    solver_harness(solver);
}

#[test]
fn solver_test_verify_board() {
    let board: Board = Board::make(PUZZLE);
    assert_eq!(verify(board, None), BoardStatus::OneSolution);

    let board: Board = Board::make(SOLUTION);
    assert_eq!(verify(board, None), BoardStatus::AlreadySolved);

    let board: Board = Board::make([1; 81]);
    assert_eq!(verify(board, None), BoardStatus::Unsolvable);
}

#[test]
fn test_solve_standard() {
    let board: Board = Board::make(PUZZLE);
    let solution: Board = Board::make(SOLUTION);
    println!("input:");
    let answer = solve_standard(board).unwrap();
    assert_eq!(answer, solution)
}

#[test]
fn test_is_minimal_standard() {
    let board: Board = Board::make(PUZZLE);
    assert!(!is_minimal_standard(board));

    let board: Board = Board::make([
        9, 6, 0, 5, 0, 0, 0, 0, 0,
        0, 0, 0, 0, 0, 0, 1, 0, 0,
        0, 0, 4, 0, 0, 0, 7, 0, 0,
        7, 0, 0, 0, 0, 1, 0, 5, 0,
        0, 0, 5, 0, 7, 0, 2, 0, 0,
        0, 2, 0, 0, 0, 9, 0, 0, 0,
        0, 0, 0, 0, 0, 0, 0, 0, 7,
        0, 0, 2, 6, 1, 0, 8, 0, 0,
        0, 4, 0, 0, 0, 3, 0, 0, 6,
    ]);
    assert!(is_minimal_standard(board))
}

/// The solution with four cells emptied in a rectangle whose digits can be
/// swapped: the board has two solutions.
fn two_way_board() -> Board {
    let mut numbers = SOLUTION;
    for i in [64, 68, 73, 77] {
        numbers[i] = 0;
    }
    Board::make(numbers)
}

#[test]
fn verify_finds_two_solutions() {
    assert_eq!(verify(two_way_board(), None), BoardStatus::MultipleSolutions);
    assert_eq!(verify_standard(two_way_board()), BoardStatus::MultipleSolutions);
}

#[test]
fn verify_standard_matches_verify() {
    for numbers in [PUZZLE, SOLUTION, [1; 81]] {
        let board = Board::make(numbers);
        assert_eq!(verify_standard(board), verify(board, None));
    }
}

#[test]
fn verify_empty_grid_with_conflicting_givens() {
    // Two equal digits in a row: no solution, even though cells are empty.
    let mut numbers = [0u32; 81];
    numbers[0] = 3;
    numbers[5] = 3;
    assert_eq!(verify(Board::make(numbers), None), BoardStatus::Unsolvable);
    assert_eq!(solve(Board::make(numbers), None).err(), Some(SolveError::Aborted));
    assert!(solve_standard(Board::make(numbers)).is_none());
}

#[test]
fn solve_fills_the_puzzle() {
    let answer = solve(Board::make(PUZZLE), None).ok().unwrap();
    assert_eq!(answer, Board::make(SOLUTION));
    // Solving a solved board gives it back.
    let answer = solve(Board::make(SOLUTION), Some(Rules::standard_sudoku_rules())).ok().unwrap();
    assert_eq!(answer, Board::make(SOLUTION));
}

#[test]
fn solve_standard_takes_the_first_solution_in_order() {
    // Of the two solutions, the one with the smaller digit in the first
    // differing cell comes first.
    let answer = solve_standard(two_way_board()).unwrap();
    let first = answer.board[64].unwrap();
    let other = Board::make(SOLUTION).board[68].unwrap();
    assert!(u32::from(first) <= u32::from(other));
    assert_eq!(u32::from(answer.board[64].unwrap()), 3);
}

#[test]
fn minimal_needs_a_proper_board() {
    assert!(!is_minimal_standard(two_way_board()));
    assert!(!is_minimal_standard(Board::make([1; 81])));
}

#[test]
fn move_from_solution_fills_the_gaps_in_order() {
    let board = Board::make(PUZZLE);
    let solution = Board::make(SOLUTION);
    match make_move_from_solution(&board, &solution) {
        Action::Place(list) => {
            let gaps: Vec<usize> = (0..81).filter(|i| board.board[*i].is_none()).collect();
            assert_eq!(list.len(), gaps.len());
            for (pos, i) in list.iter().zip(gaps.iter()) {
                assert_eq!(pos.y * 9 + pos.x, *i);
                assert_eq!(Some(pos.digit), solution.board[*i]);
            }
        }
        _ => panic!("expected digits to place"),
    }
    assert!(matches!(make_move_from_solution(&solution, &solution), Action::AlreadySolved));
}

#[test]
fn solvers_abort_on_unsolvable_boards() {
    let rules = Arbiter::new(standard_sudoku_rules());
    let board = Board::make([1; 81]);
    let mut backtracking = BacktrackingSolver::default();
    assert!(matches!(backtracking.make_move(&board, &rules), Action::Abort));
    let mut constraint = ConstraintSolver::default();
    assert!(matches!(constraint.make_move(&board, &rules), Action::Abort));
}

#[test]
fn backtracking_verify_board_classifies() {
    let rules = Arbiter::new(standard_sudoku_rules());
    let solver = BacktrackingSolver::default();
    assert_eq!(solver.verify_board(Board::make(PUZZLE), &rules), BoardStatus::OneSolution);
    assert_eq!(solver.verify_board(two_way_board(), &rules), BoardStatus::MultipleSolutions);
}

#[test]
fn constraint_verifier_classifies() {
    let rules = Arbiter::new(standard_sudoku_rules());
    let mut solver = ConstraintSolver::default();
    assert_eq!(solver.verify(&Board::make(PUZZLE), &rules), BoardStatus::OneSolution);
    assert_eq!(solver.verify(&Board::make(SOLUTION), &rules), BoardStatus::AlreadySolved);
    assert_eq!(solver.verify(&Board::make([1; 81]), &rules), BoardStatus::Unsolvable);
    assert_eq!(solver.verify(&two_way_board(), &rules), BoardStatus::MultipleSolutions);
}

#[test]
fn constraint_solver_fills_a_nearly_full_board() {
    let rules = Arbiter::new(standard_sudoku_rules());
    let mut numbers = SOLUTION;
    for i in [0, 40, 80] {
        numbers[i] = 0;
    }
    let mut board = Board::make(numbers);
    let mut solver = ConstraintSolver::default();
    let action = solver.make_move(&board, &rules);
    assert!(matches!(action, Action::Place(_)));
    assert!(rules.update(&mut board, action).is_ok());
    assert_eq!(board, Board::make(SOLUTION));
    assert!(matches!(solver.make_move(&board, &rules), Action::AlreadySolved));
}

#[test]
fn solve_returns_a_solved_board_unchanged() {
    let board = Board::make(SOLUTION);
    assert_eq!(solve(board, None).ok(), Some(board));
}

#[test]
fn backtracking_solver_fills_in_one_move() {
    let rules = Arbiter::new(standard_sudoku_rules());
    let mut board = Board::make(PUZZLE);
    let mut solver = BacktrackingSolver::default();
    let action = solver.make_move(&board, &rules);
    assert!(rules.update(&mut board, action).is_ok());
    assert_eq!(board, Board::make(SOLUTION));
}
