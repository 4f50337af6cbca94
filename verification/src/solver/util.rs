use vstd::prelude::*;

use crate::arbiter::{apply_moves, lemma_on_grid_reaches, Arbiter, UpdateResult};
use crate::board::{has_gap, is_cell, row_of, col_of, Board, Digit};
use crate::rules::{lemma_cell_coords, lemma_rules_monotone, standard_rules, sub_grid, Rules};
use crate::solver::backtracking::BacktrackingSolver;
use crate::solver::constraint::{gap_total, gave_up, ConstraintSolver};
use crate::solver::{is_solution, Action, BoardStatus, DigitPos, Solver, solvable, two_solutions, unique_solution};
use crate::arbiter::solved;

verus! {

/// The move that writes the digit of `solution` at cell `i`.
pub open spec fn move_at(solution: Seq<Option<Digit>>, i: int) -> DigitPos {
    DigitPos { digit: solution[i]->0, x: col_of(i) as usize, y: row_of(i) as usize }
}

/// The moves that fill the empty cells of `input` from cell `n` on with the
/// digits of `solution`, cell by cell.
pub open spec fn moves_from(input: Seq<Option<Digit>>, solution: Seq<Option<Digit>>, n: int) -> Seq<DigitPos>
    decreases 81 - n,
{
    if n >= 81 || n < 0 {
        Seq::empty()
    } else if input[n] is None {
        seq![move_at(solution, n)] + moves_from(input, solution, n + 1)
    } else {
        moves_from(input, solution, n + 1)
    }
}

/// `input` with the cells before `n` taken from `solution`.
pub open spec fn filled_upto(input: Seq<Option<Digit>>, solution: Seq<Option<Digit>>, n: int) -> Seq<Option<Digit>> {
    Seq::new(81, |i: int| if i < n { solution[i] } else { input[i] })
}

/// Writing the moves toward a solution onto the board they come from is legal
/// and yields the solution.
pub proof fn lemma_moves_reach_solution(rules: Rules, input: Seq<Option<Digit>>, solution: Seq<Option<Digit>>, n: int)
    requires
        rules.wf(),
        input.len() == 81,
        is_solution(rules, input, solution),
        0 <= n <= 81,
    ensures
        apply_moves(rules, filled_upto(input, solution, n), moves_from(input, solution, n)) == (solution, true),
    decreases 81 - n,
{
    let h = filled_upto(input, solution, n);
    if n == 81 {
        assert(h =~= solution);
    } else {
        let h2 = filled_upto(input, solution, n + 1);
        lemma_moves_reach_solution(rules, input, solution, n + 1);
        if input[n] is None {
            let ms = moves_from(input, solution, n);
            assert(ms[0] == move_at(solution, n));
            assert(ms.drop_first() =~= moves_from(input, solution, n + 1));
            lemma_cell_coords(n);
            assert(ms[0].cell() == n);
            assert(solution[n] is Some);
            assert(h.update(n, Some(ms[0].digit)) =~= h2);
            assert(sub_grid(h2, solution));
            assert(rules.ok_at(solution, n));
            lemma_rules_monotone(&rules, h2, solution, n);
        } else {
            assert(h =~= h2);
        }
    }
}

/// The move that completes `input` toward `solution`: every empty cell of
/// `input`, in order, gets the digit of `solution` there; a full board is
/// reported as solved.
pub fn make_move_from_solution(input: &Board, solution: &Board) -> (r: Action)
    requires
        forall|i: int| is_cell(i) && #[trigger] input@[i] is None ==> solution@[i] is Some,
    ensures
        match r {
            Action::Place(list) => has_gap(input@) && list@ == moves_from(input@, solution@, 0),
            Action::AlreadySolved => !has_gap(input@),
            Action::Abort => false,
        },
{
    let ghost g = input@;
    let ghost s = solution@;
    let mut placed_digits: Vec<DigitPos> = Vec::new();
    let mut blank_idx: usize = 0;
    while blank_idx < 81
        invariant
            g == input@,
            s == solution@,
            0 <= blank_idx <= 81,
            forall|i: int| is_cell(i) && #[trigger] g[i] is None ==> s[i] is Some,
            placed_digits@ + moves_from(g, s, blank_idx as int) == moves_from(g, s, 0),
            placed_digits@.len() == 0 <==> forall|j: int| 0 <= j < blank_idx ==> #[trigger] g[j] is Some,
        decreases 81 - blank_idx,
    {
        let ghost before = placed_digits@;
        if input.board[blank_idx].is_none() {
            let (x, y) = input.xy(blank_idx);
            let digit = match solution.board[blank_idx] {
                Some(d) => d,
                None => Digit::_1,
            };
            placed_digits.push(DigitPos { digit, x, y });
            proof {
                assert(placed_digits@[before.len() as int] == move_at(s, blank_idx as int));
                assert(moves_from(g, s, blank_idx as int) == seq![move_at(s, blank_idx as int)] + moves_from(g, s, blank_idx + 1));
                assert(placed_digits@ + moves_from(g, s, blank_idx + 1) =~= before + moves_from(g, s, blank_idx as int));
            }
        } else {
            assert(moves_from(g, s, blank_idx as int) == moves_from(g, s, blank_idx + 1));
        }
        blank_idx = blank_idx + 1;
    }
    proof {
        assert(moves_from(g, s, 81) =~= Seq::<DigitPos>::empty());
        assert(placed_digits@ + moves_from(g, s, 81) =~= placed_digits@);
    }
    if placed_digits.len() == 0 {
        Action::AlreadySolved
    } else {
        Action::Place(placed_digits)
    }
}

/// Why a game ended without a solved board.
#[derive(Debug, Clone, Copy, PartialEq, Eq, Structural)]
pub enum SolveError {
    Aborted,
    Illegal,
}

/// What a game loop does once a move has been refereed with `status`: go on
/// (`None`), stop with the solved board (`Some(Ok(()))`), or stop with the
/// error that the outcome stands for.
pub fn after_move(status: UpdateResult) -> (r: Option<Result<(), SolveError>>)
    ensures
        r == match status {
            UpdateResult::Applied => None,
            UpdateResult::Done => Some(Ok::<(), SolveError>(())),
            UpdateResult::Aborted => Some(Err::<(), SolveError>(SolveError::Aborted)),
            UpdateResult::IllegalMove => Some(Err::<(), SolveError>(SolveError::Illegal)),
        },
{
    match status {
        UpdateResult::Applied => None,
        UpdateResult::Done => Some(Ok(())),
        UpdateResult::Aborted => Some(Err(SolveError::Aborted)),
        UpdateResult::IllegalMove => Some(Err(SolveError::Illegal)),
    }
}

/// The rules asked for, or the standard ones when none are given.
pub open spec fn rules_or_standard(rules: Option<Rules>) -> Rules {
    match rules {
        Some(r) => r,
        None => standard_rules(),
    }
}

/// Classifies `board` by how many solutions it has under `rules` (by default
/// rows, columns and boxes).
pub fn verify(board: Board, rules: Option<Rules>) -> (r: BoardStatus)
    ensures
        r == BoardStatus::AlreadySolved <==> solved(rules_or_standard(rules), board@),
        r == BoardStatus::Unsolvable <==> !solvable(rules_or_standard(rules), board@),
        r == BoardStatus::OneSolution <==> has_gap(board@) && unique_solution(rules_or_standard(rules), board@),
        r == BoardStatus::MultipleSolutions <==> two_solutions(rules_or_standard(rules), board@),
{
    let solver = BacktrackingSolver::default();
    let rules = match rules {
        Some(r) => r,
        None => Rules::standard_sudoku_rules(),
    };
    let arbiter = Arbiter::new(rules);
    solver.verify_board(board, &arbiter)
}

/// Every move toward a solution names a cell on the grid.
pub proof fn lemma_moves_on_grid(input: Seq<Option<Digit>>, solution: Seq<Option<Digit>>, n: int)
    ensures
        forall|k: int| 0 <= k < moves_from(input, solution, n).len() ==> (#[trigger] moves_from(input, solution, n)[k]).on_grid(),
    decreases 81 - n,
{
    if 0 <= n < 81 {
        lemma_moves_on_grid(input, solution, n + 1);
        lemma_cell_coords(n);
        let ms = moves_from(input, solution, n);
        if input[n] is None {
            assert(ms[0] == move_at(solution, n));
            assert forall|k: int| 0 <= k < ms.len() implies (#[trigger] ms[k]).on_grid() by {
                if k > 0 {
                    assert(ms[k] == moves_from(input, solution, n + 1)[k - 1]);
                }
            }
        } else {
            assert(ms == moves_from(input, solution, n + 1));
        }
    }
}

/// Solves `board` under `rules` (by default rows, columns and boxes) with the
/// constraint solver, refereed move by move. A solved board comes back as it
/// is; a solvable one comes back solved unless the constraint search gives up
/// on it (see `ConstraintSolver::make_move`).
pub fn solve(board: Board, rules: Option<Rules>) -> (r: Result<Board, SolveError>)
    ensures
        r is Ok ==> is_solution(rules_or_standard(rules), board@, r->Ok_0@),
        !solvable(rules_or_standard(rules), board@) ==> r == Err::<Board, SolveError>(SolveError::Aborted),
        r is Err ==> r->Err_0 == SolveError::Aborted,
        solved(rules_or_standard(rules), board@) ==> r == Ok::<Board, SolveError>(board),
        solvable(rules_or_standard(rules), board@) && gap_total(board@, 81) <= 5 ==> r is Ok,
        r is Err ==> !solvable(rules_or_standard(rules), board@) || gave_up(rules_or_standard(rules), board@, 5, true),
{
    let mut solver = ConstraintSolver::default();
    let chosen = match rules {
        Some(r) => r,
        None => Rules::standard_sudoku_rules(),
    };
    let arbiter = Arbiter::new(chosen);
    let ghost rl = arbiter.ruleset();
    let ghost b_in = board@;
    let mut current = board;
    while !arbiter.is_solved(&current)
        invariant
            rl == arbiter.ruleset(),
            rl == rules_or_standard(rules),
            b_in == board@,
            sub_grid(b_in, current@),
            forall|s: Seq<Option<Digit>>| #[trigger] is_solution(rl, current@, s) ==> is_solution(rl, b_in, s),
            !solved(rl, current@) ==> current == board,
            solved(rl, b_in) ==> current == board,
        ensures
            solved(rl, current@),
            sub_grid(b_in, current@),
            rl == rules_or_standard(rules),
            b_in == board@,
            solved(rl, b_in) ==> current == board,
        decreases (if solved(rl, current@) { 0int } else { 1int }),
    {
        let action = solver.make_move(&current, &arbiter);
        let ghost pre = current@;
        proof {
            if action is Place {
                let s = choose|s: Seq<Option<Digit>>| #[trigger] is_solution(rl, pre, s) && action->Place_0@ == moves_from(pre, s, 0);
                lemma_moves_on_grid(pre, s, 0);
                lemma_on_grid_reaches(rl, pre, moves_from(pre, s, 0));
                lemma_moves_reach_solution(rl, pre, s, 0);
                assert(filled_upto(pre, s, 0) =~= pre);
            }
        }
        let status = arbiter.update(&mut current, action);
        match status {
            UpdateResult::Done => {
                break;
            },
            UpdateResult::Applied => {
                proof {
                    let s = choose|s: Seq<Option<Digit>>| #[trigger] is_solution(rl, pre, s) && action->Place_0@ == moves_from(pre, s, 0);
                    assert(current@ == s);
                    assert forall|i: int| is_cell(i) && #[trigger] b_in[i] is Some implies current@[i] == b_in[i] by {
                        assert(pre[i] == b_in[i]);
                    }
                    crate::solver::lemma_full(rl, current@);
                    // the board the referee now holds obeys the rules
                    assert(rl.ok(current@));
                }
            },
            UpdateResult::Aborted => {
                return Err(SolveError::Aborted);
            },
            UpdateResult::IllegalMove => {
                return Err(SolveError::Illegal);
            },
        }
    }
    proof {
        if !solvable(rl, b_in) {
            assert(is_solution(rl, b_in, current@));
        }
    }
    Ok(current)
}

} // verus!
