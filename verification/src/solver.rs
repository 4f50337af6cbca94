use vstd::prelude::*;

use crate::arbiter::{solved, Arbiter};
use crate::board::{has_gap, is_cell, Board, Digit};
use crate::rules::{cell_at, lemma_rules_monotone, sub_grid, Rules};

pub mod backtracking;
pub mod constraint;
pub mod util;

verus! {

/// Something that proposes moves for a board.
pub trait Solver {
    /// The move this solver proposed last; a solver that keeps no record
    /// of its moves has proposed only `Abort`.
    open spec fn proposed(&self) -> Action {
        Action::Abort
    }

    /// The next move for `board` under `rules`; the solver then holds it as
    /// the move it proposed.
    fn make_move(&mut self, board: &Board, rules: &Arbiter) -> (r: Action)
        ensures
            final(self).proposed() == r,
    ;
}

/// Something that classifies a board by its number of solutions.
pub trait Verifier {
    fn verify(&mut self, board: &Board, rules: &Arbiter) -> BoardStatus;
}

/// A digit to write at column `x`, row `y`.
#[derive(Debug, Clone, Copy)]
pub struct DigitPos {
    pub digit: Digit,
    pub x: usize,
    pub y: usize,
}

impl DigitPos {
    /// Whether the position is on the grid.
    pub open spec fn on_grid(self) -> bool {
        self.x < 9 && self.y < 9
    }

    /// The cell the position names.
    pub open spec fn cell(self) -> int {
        cell_at(self.x as int, self.y as int)
    }
}

/// Why numbers typed as a move were refused.
#[derive(Debug, Clone, Copy, PartialEq, Eq, Structural)]
pub enum MoveError {
    /// Not exactly three numbers.
    Count,
    /// The third number is not a digit from 1 to 9.
    Digit,
}

/// The move that the numbers `column row digit` describe.
pub fn parse_move(nums: &Vec<usize>) -> (r: Result<DigitPos, MoveError>)
    ensures
        nums.len() != 3 ==> r == Err::<DigitPos, MoveError>(MoveError::Count),
        nums.len() == 3 && !(1 <= nums[2] <= 9) ==> r == Err::<DigitPos, MoveError>(MoveError::Digit),
        nums.len() == 3 && 1 <= nums[2] <= 9 ==> r is Ok && r->Ok_0.x == nums[0] && r->Ok_0.y == nums[1]
            && r->Ok_0.digit.value() == nums[2],
{
    if nums.len() != 3 {
        return Err(MoveError::Count);
    }
    let value = nums[2];
    if value < 1 || value > 9 {
        return Err(MoveError::Digit);
    }
    let digit = Digit::from_u32(value as u32);
    proof {
        crate::board::lemma_of_value(value as int);
    }
    Ok(DigitPos { digit: digit.unwrap(), x: nums[0], y: nums[1] })
}

/// A solver's move.
#[derive(Debug)]
pub enum Action {
    /// Write these digits, in order.
    Place(Vec<DigitPos>),
    /// The board needs no more digits.
    AlreadySolved,
    /// The solver gives up.
    Abort,
}

impl Action {
    /// Whether every position the action writes to is on the grid.
    pub open spec fn on_grid(&self) -> bool {
        match self {
            Action::Place(list) => forall|k: int| 0 <= k < list@.len() ==> (#[trigger] list@[k]).on_grid(),
            _ => true,
        }
    }
}

/// How many solutions a board has.
#[derive(Debug, Clone, Copy, PartialEq, Eq, Hash, Structural)]
pub enum BoardStatus {
    Unsolvable,
    AlreadySolved,
    OneSolution,
    MultipleSolutions,
}

/// Whether `s` is a solution of `g` under `rules`: it keeps every digit of
/// `g`, is full, and obeys the rules.
pub open spec fn is_solution(rules: Rules, g: Seq<Option<Digit>>, s: Seq<Option<Digit>>) -> bool {
    &&& s.len() == 81
    &&& sub_grid(g, s)
    &&& solved(rules, s)
}

/// Whether `g` has a solution.
pub open spec fn solvable(rules: Rules, g: Seq<Option<Digit>>) -> bool {
    exists|s: Seq<Option<Digit>>| is_solution(rules, g, s)
}

/// Whether `g` has exactly one solution.
pub open spec fn unique_solution(rules: Rules, g: Seq<Option<Digit>>) -> bool {
    exists|s: Seq<Option<Digit>>| #[trigger] is_solution(rules, g, s) && forall|t: Seq<Option<Digit>>|
        #[trigger] is_solution(rules, g, t) ==> t == s
}

/// Whether `g` has two different solutions.
pub open spec fn two_solutions(rules: Rules, g: Seq<Option<Digit>>) -> bool {
    exists|s: Seq<Option<Digit>>, t: Seq<Option<Digit>>|
        #[trigger] is_solution(rules, g, s) && #[trigger] is_solution(rules, g, t) && s != t
}

/// Whether `a` comes before `b` when grids are read cell by cell and compared
/// at the first cell where they differ.
pub open spec fn lex_lt(a: Seq<Option<Digit>>, b: Seq<Option<Digit>>) -> bool {
    exists|i: int| #![trigger a[i], b[i]]
        is_cell(i) && (forall|j: int| 0 <= j < i ==> #[trigger] a[j] == b[j]) && a[i] is Some && b[i] is Some
            && a[i]->0.value() < b[i]->0.value()
}

/// A solution of `g.update(at, Some(d))` is a solution of `g`, and a solution
/// of `g` with `d` at an empty cell `at` is one of `g.update(at, Some(d))`.
pub(crate) proof fn lemma_branch(rules: Rules, g: Seq<Option<Digit>>, at: int, d: Digit, s: Seq<Option<Digit>>)
    requires
        g.len() == 81,
        is_cell(at),
        g[at] is None,
    ensures
        is_solution(rules, g.update(at, Some(d)), s) ==> is_solution(rules, g, s) && s[at] == Some(d),
        is_solution(rules, g, s) && s[at] == Some(d) ==> is_solution(rules, g.update(at, Some(d)), s),
{
    let b = g.update(at, Some(d));
    if is_solution(rules, b, s) {
        assert(b[at] == Some(d));
        assert(s[at] == b[at]);
        assert forall|i: int| is_cell(i) && #[trigger] g[i] is Some implies s[i] == g[i] by {
            assert(b[i] == g[i]);
        }
    }
    if is_solution(rules, g, s) && s[at] == Some(d) {
        assert forall|i: int| is_cell(i) && #[trigger] b[i] is Some implies s[i] == b[i] by {
            if i != at {
                assert(b[i] == g[i]);
            }
        }
    }
}

/// If the rules fail at a cell of `b`, no solution of `b` exists.
pub(crate) proof fn lemma_dead_end(rules: Rules, b: Seq<Option<Digit>>, at: int)
    requires
        rules.wf(),
        b.len() == 81,
        is_cell(at),
        !rules.ok_at(b, at),
    ensures
        !solvable(rules, b),
{
    if solvable(rules, b) {
        let s = choose|s: Seq<Option<Digit>>| is_solution(rules, b, s);
        assert(rules.ok_at(s, at));
        lemma_rules_monotone(&rules, b, s, at);
    }
}

/// A full valid grid is its own only solution.
pub(crate) proof fn lemma_full(rules: Rules, b: Seq<Option<Digit>>)
    requires
        b.len() == 81,
        solved(rules, b),
    ensures
        is_solution(rules, b, b),
        forall|s: Seq<Option<Digit>>| #[trigger] is_solution(rules, b, s) ==> s == b,
{
    assert forall|s: Seq<Option<Digit>>| #[trigger] is_solution(rules, b, s) implies s == b by {
        assert forall|i: int| 0 <= i < 81 implies s[i] == b[i] by {
            assert(b[i] is Some);
        }
        assert(s =~= b);
    }
}

/// Two different full grids are ordered one way or the other.
proof fn lemma_lex_from(a: Seq<Option<Digit>>, b: Seq<Option<Digit>>, k: int)
    requires
        a.len() == 81,
        b.len() == 81,
        !has_gap(a),
        !has_gap(b),
        0 <= k <= 81,
        forall|j: int| 0 <= j < k ==> #[trigger] a[j] == b[j],
        exists|j: int| k <= j < 81 && #[trigger] a[j] != b[j],
    ensures
        lex_lt(a, b) || lex_lt(b, a),
    decreases 81 - k,
{
    if a[k] == b[k] {
        lemma_lex_from(a, b, k + 1);
    } else {
        assert(is_cell(k));
        assert(a[k] is Some && b[k] is Some);
        crate::board::lemma_digit_value(a[k]->0);
        crate::board::lemma_digit_value(b[k]->0);
        assert(a[k]->0.value() != b[k]->0.value());
        assert(forall|j: int| 0 <= j < k ==> #[trigger] b[j] == a[j]);
    }
}

/// A grid has at most one first solution: two solutions of `g` before which,
/// in cell-by-cell order, no solution of `g` comes are the same.
pub proof fn lemma_first_solution_unique(rules: Rules, g: Seq<Option<Digit>>, s: Seq<Option<Digit>>, t: Seq<Option<Digit>>)
    requires
        is_solution(rules, g, s),
        is_solution(rules, g, t),
        forall|u: Seq<Option<Digit>>| #[trigger] is_solution(rules, g, u) ==> !lex_lt(u, s),
        forall|u: Seq<Option<Digit>>| #[trigger] is_solution(rules, g, u) ==> !lex_lt(u, t),
    ensures
        s == t,
{
    if s != t {
        if !(exists|j: int| 0 <= j < 81 && #[trigger] s[j] != t[j]) {
            assert(s =~= t);
        }
        lemma_lex_from(s, t, 0);
    }
}

/// The first solution of `g` in cell-by-cell order (meaningful when `g` is solvable).
pub open spec fn first_solution(rules: Rules, g: Seq<Option<Digit>>) -> Seq<Option<Digit>> {
    choose|s: Seq<Option<Digit>>| is_solution(rules, g, s) && forall|u: Seq<Option<Digit>>|
        #[trigger] is_solution(rules, g, u) ==> !lex_lt(u, s)
}

/// A solution before which no solution comes is the first solution.
pub proof fn lemma_is_first_solution(rules: Rules, g: Seq<Option<Digit>>, s: Seq<Option<Digit>>)
    requires
        is_solution(rules, g, s),
        forall|u: Seq<Option<Digit>>| #[trigger] is_solution(rules, g, u) ==> !lex_lt(u, s),
    ensures
        s == first_solution(rules, g),
{
    let t = first_solution(rules, g);
    assert(is_solution(rules, g, t) && forall|u: Seq<Option<Digit>>| #[trigger] is_solution(rules, g, u) ==> !lex_lt(u, t));
    lemma_first_solution_unique(rules, g, s, t);
}

} // verus!
