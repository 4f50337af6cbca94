//! Search specialised to the standard rules (rows, columns and boxes).

use vstd::prelude::*;

use crate::arbiter::{solved, Arbiter};
use crate::board::{has_gap, is_cell, lemma_digit_value, row_of, Board, Digit};
use vstd::set_lib::{lemma_int_range, lemma_map_size, lemma_subset_equality, set_int_range};
use vstd::relations::injective_on;
use crate::rules::{cell_at, lemma_cell_coords, lemma_coords_cell, lemma_standard_rules, row_ok_at, standard_rules, Rules};
use crate::solver::backtracking::{count_solutions, solve_first};
use crate::solver::{first_solution, is_solution, lex_lt, solvable, two_solutions, unique_solution, BoardStatus};

verus! {

/// The first solution of `board` under the standard rules, in cell-by-cell
/// order, if it has one.
pub fn solve_standard(board: Board) -> (r: Option<Board>)
    ensures
        r is Some ==> is_solution(standard_rules(), board@, r->0@),
        r is Some ==> forall|s: Seq<Option<Digit>>| #[trigger] is_solution(standard_rules(), board@, s) ==> !lex_lt(s, r->0@),
        r is None ==> !solvable(standard_rules(), board@),
        r is Some ==> r->0@ == first_solution(standard_rules(), board@),
{
    let arbiter = Arbiter::new(Rules::standard_sudoku_rules());
    solve_first(board, &arbiter)
}

/// Classifies `board` by its number of solutions under the standard rules.
pub fn verify_standard(board: Board) -> (r: BoardStatus)
    ensures
        r == BoardStatus::AlreadySolved <==> solved(standard_rules(), board@),
        r == BoardStatus::Unsolvable <==> !solvable(standard_rules(), board@),
        r == BoardStatus::OneSolution <==> has_gap(board@) && unique_solution(standard_rules(), board@),
        r == BoardStatus::MultipleSolutions <==> two_solutions(standard_rules(), board@),
{
    let arbiter = Arbiter::new(Rules::standard_sudoku_rules());
    count_solutions(board, &arbiter)
}

/// Whether `g` is solved, or has exactly one solution, under the standard rules.
pub open spec fn proper_standard(g: Seq<Option<Digit>>) -> bool {
    solved(standard_rules(), g) || (has_gap(g) && unique_solution(standard_rules(), g))
}

/// Whether `board` is a minimal puzzle under the standard rules: it is solved
/// or has one solution, and emptying any one of its filled cells leaves a
/// board without exactly one solution.
pub fn is_minimal_standard(board: Board) -> (r: bool)
    ensures
        r == (proper_standard(board@) && forall|i: int|
            is_cell(i) && #[trigger] board@[i] is Some ==> !unique_solution(standard_rules(), board@.update(i, None))),
{
    match verify_standard(board) {
        BoardStatus::AlreadySolved | BoardStatus::OneSolution => {},
        BoardStatus::MultipleSolutions => {
            return false;
        },
        BoardStatus::Unsolvable => {
            return false;
        },
    }
    let mut index: usize = 0;
    while index < 81
        invariant
            0 <= index <= 81,
            proper_standard(board@),
            forall|i: int| 0 <= i < index && #[trigger] board@[i] is Some ==> !unique_solution(standard_rules(), board@.update(i, None)),
        decreases 81 - index,
    {
        if board.board[index].is_some() {
            let mut this_board = board;
            this_board.board[index] = None;
            assert(this_board@ =~= board@.update(index as int, None));
            assert(has_gap(this_board@)) by {
                assert(this_board@[index as int] is None);
            }
            if verify_standard(this_board) == BoardStatus::OneSolution {
                return false;
            }
        }
        index = index + 1;
    }
    true
}

/// A full grid whose rows hold no repeated digit holds every digit in each row.
proof fn lemma_row_has_all(g: Seq<Option<Digit>>, r: int, d: Digit)
    requires
        g.len() == 81,
        0 <= r < 9,
        !has_gap(g),
        forall|i: int| is_cell(i) ==> #[trigger] row_ok_at(g, i),
    ensures
        exists|x: int| 0 <= x < 9 && #[trigger] g[cell_at(x, r)] == Some(d),
{
    let cols = set_int_range(0, 9);
    let f = |x: int| g[cell_at(x, r)]->0.value() as int;
    let vals = cols.map(f);
    lemma_int_range(0, 9);
    lemma_int_range(1, 10);
    assert forall|x: int| 0 <= x < 9 implies is_cell(#[trigger] cell_at(x, r)) && row_of(cell_at(x, r)) == r && g[cell_at(x, r)] is Some by {
        lemma_coords_cell(x, r);
    }
    assert(injective_on(f, cols)) by {
        assert forall|x1: int, x2: int| cols.contains(x1) && cols.contains(x2) && #[trigger] f(x1) == #[trigger] f(x2) implies x1 == x2 by {
            let a = cell_at(x1, r);
            let b = cell_at(x2, r);
            lemma_coords_cell(x1, r);
            lemma_coords_cell(x2, r);
            lemma_digit_value(g[a]->0);
            lemma_digit_value(g[b]->0);
            if x1 != x2 {
                assert(row_ok_at(g, a));
                assert(g[b] != g[a]);
            }
        }
    }
    lemma_map_size(cols, vals, f);
    assert(vals.subset_of(set_int_range(1, 10))) by {
        assert forall|v: int| #[trigger] vals.contains(v) implies set_int_range(1, 10).contains(v) by {
            let x = choose|x: int| cols.contains(x) && f(x) == v;
            lemma_digit_value(g[cell_at(x, r)]->0);
        }
    }
    lemma_subset_equality(vals, set_int_range(1, 10));
    lemma_digit_value(d);
    assert(set_int_range(1, 10).contains(d.value() as int));
    assert(vals.contains(d.value() as int));
    let x = choose|x: int| cols.contains(x) && f(x) == d.value() as int;
    lemma_digit_value(g[cell_at(x, r)]->0);
    assert(g[cell_at(x, r)] == Some(d));
}

/// Emptying one cell of a solved grid leaves that grid as its only
/// solution under the standard rules.
proof fn lemma_solved_minus_one(g: Seq<Option<Digit>>, i: int)
    requires
        g.len() == 81,
        solved(standard_rules(), g),
        is_cell(i),
    ensures
        is_solution(standard_rules(), g.update(i, None), g),
        forall|s: Seq<Option<Digit>>| #[trigger] is_solution(standard_rules(), g.update(i, None), s) ==> s == g,
{
    lemma_standard_rules();
    let rl = standard_rules();
    let h = g.update(i, None);
    assert forall|j: int| is_cell(j) implies #[trigger] row_ok_at(g, j) by {
        assert(rl.ok_at(g, j));
    }
    assert forall|s: Seq<Option<Digit>>| #[trigger] is_solution(rl, h, s) implies s == g by {
        assert forall|j: int| 0 <= j < 81 && j != i implies s[j] == g[j] by {
            assert(h[j] == g[j]);
            assert(g[j] is Some);
        }
        assert(s[i] is Some);
        if s[i] != g[i] {
            let d = s[i]->0;
            lemma_row_has_all(g, row_of(i), d);
            let x = choose|x: int| 0 <= x < 9 && #[trigger] g[cell_at(x, row_of(i))] == Some(d);
            let j = cell_at(x, row_of(i));
            lemma_cell_coords(i);
            lemma_coords_cell(x, row_of(i));
            assert(j != i);
            assert(s[j] == g[j]);
            assert(rl.ok_at(s, i));
            assert(row_ok_at(s, i));
            assert(s[j] != s[i]);
        }
        assert(s =~= g);
    }
    assert forall|j: int| is_cell(j) && #[trigger] h[j] is Some implies g[j] == h[j] by {
    }
}

/// What minimality means, stated by solution counts: a board is minimal
/// exactly when it has empty cells and a single solution, and emptying any
/// one of its filled cells leaves a board with two solutions or more. So a
/// solved grid is never minimal.
pub proof fn lemma_minimal_standard(g: Seq<Option<Digit>>)
    requires
        g.len() == 81,
    ensures
        (proper_standard(g) && forall|i: int| is_cell(i) && #[trigger] g[i] is Some ==> !unique_solution(standard_rules(), g.update(i, None)))
            <==> (has_gap(g) && unique_solution(standard_rules(), g) && forall|i: int|
                is_cell(i) && #[trigger] g[i] is Some ==> two_solutions(standard_rules(), g.update(i, None))),
{
    let rl = standard_rules();
    let lhs = proper_standard(g) && forall|i: int| is_cell(i) && #[trigger] g[i] is Some ==> !unique_solution(rl, g.update(i, None));
    if lhs {
        if solved(rl, g) {
            assert(g[0] is Some);
            lemma_solved_minus_one(g, 0);
            assert(unique_solution(rl, g.update(0, None)));
        }
        let s = choose|s: Seq<Option<Digit>>| #[trigger] is_solution(rl, g, s) && forall|t: Seq<Option<Digit>>|
            #[trigger] is_solution(rl, g, t) ==> t == s;
        assert forall|i: int| is_cell(i) && #[trigger] g[i] is Some implies two_solutions(rl, g.update(i, None)) by {
            let h = g.update(i, None);
            assert(is_solution(rl, h, s)) by {
                assert forall|j: int| is_cell(j) && #[trigger] h[j] is Some implies s[j] == h[j] by {
                    assert(h[j] == g[j]);
                }
            }
            assert(!unique_solution(rl, h));
            assert(!(forall|t: Seq<Option<Digit>>| #[trigger] is_solution(rl, h, t) ==> t == s));
            let t = choose|t: Seq<Option<Digit>>| #[trigger] is_solution(rl, h, t) && t != s;
            assert(is_solution(rl, h, s) && is_solution(rl, h, t) && s != t);
        }
    }
    if has_gap(g) && unique_solution(rl, g) && forall|i: int|
        is_cell(i) && #[trigger] g[i] is Some ==> two_solutions(rl, g.update(i, None)) {
        assert forall|i: int| is_cell(i) && #[trigger] g[i] is Some implies !unique_solution(rl, g.update(i, None)) by {
            let h = g.update(i, None);
            if unique_solution(rl, h) {
                let s = choose|s: Seq<Option<Digit>>| #[trigger] is_solution(rl, h, s) && forall|t: Seq<Option<Digit>>|
                    #[trigger] is_solution(rl, h, t) ==> t == s;
                let (a, b) = choose|a: Seq<Option<Digit>>, b: Seq<Option<Digit>>|
                    #[trigger] is_solution(rl, h, a) && #[trigger] is_solution(rl, h, b) && a != b;
                assert(a == s && b == s);
            }
        }
    }
}

} // verus!
