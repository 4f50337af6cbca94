use vstd::prelude::*;

use crate::arbiter::{solved, Arbiter};
use crate::board::{has_gap, is_cell, lemma_digit_value, Board, Digit};
use crate::rules::{lemma_rules_local, lemma_rules_ok_monotone, Rules};
use crate::solver::{first_solution, lemma_is_first_solution, lemma_branch, lemma_dead_end, lemma_full, is_solution, lex_lt, solvable, two_solutions, unique_solution, Action, BoardStatus, Solver};
use crate::solver::util::{make_move_from_solution, moves_from};

verus! {

/// Two solutions of `g` agree on its filled cells; if they differ at the
/// empty cell `at` and everything before `at` is filled, the one with the
/// smaller digit there comes first.
proof fn lemma_lex_at(rules: Rules, g: Seq<Option<Digit>>, at: int, s: Seq<Option<Digit>>, t: Seq<Option<Digit>>)
    requires
        g.len() == 81,
        is_cell(at),
        forall|j: int| 0 <= j < at ==> #[trigger] g[j] is Some,
        is_solution(rules, g, s),
        is_solution(rules, g, t),
        s[at] is Some,
        t[at] is Some,
        s[at]->0.value() > t[at]->0.value(),
    ensures
        !lex_lt(s, t),
{
    if lex_lt(s, t) {
        let i = choose|i: int| #![trigger s[i], t[i]]
            is_cell(i) && (forall|j: int| 0 <= j < i ==> #[trigger] s[j] == t[j]) && s[i] is Some && t[i] is Some
                && s[i]->0.value() < t[i]->0.value();
        if i < at {
            assert(g[i] is Some);
            assert(s[i] == g[i] && t[i] == g[i]);
        } else if i > at {
            assert(s[at] == t[at]);
        }
    }
}

/// Searches the completions of `board`, whose cells before `at` are filled
/// and whose cell `at` is empty, trying the digits of each empty cell in
/// increasing order. On success the board holds the first solution in that
/// order; otherwise it is left as it was and no solution exists.
fn solve_from(board: &mut Board, rules: &Arbiter, at: usize) -> (found: bool)
    requires
        at < 81,
        old(board)@[at as int] is None,
        forall|j: int| 0 <= j < at ==> #[trigger] old(board)@[j] is Some,
        rules.ruleset().ok(old(board)@),
    ensures
        found ==> is_solution(rules.ruleset(), old(board)@, final(board)@),
        found ==> forall|s: Seq<Option<Digit>>| #[trigger] is_solution(rules.ruleset(), old(board)@, s) ==> !lex_lt(s, final(board)@),
        !found ==> !solvable(rules.ruleset(), old(board)@) && final(board)@ == old(board)@,
    decreases 81 - at,
{
    let ghost r = rules.ruleset();
    let ghost g = board@;
    let mut digit = Digit::_1;
    loop
        invariant
            r == rules.ruleset(),
            g == old(board)@,
            g.len() == 81,
            at < 81,
            g[at as int] is None,
            forall|j: int| 0 <= j < at ==> #[trigger] g[j] is Some,
            r.ok(g),
            board@.len() == 81,
            forall|j: int| 0 <= j < 81 && j != at ==> #[trigger] board@[j] == g[j],
            forall|s: Seq<Option<Digit>>| #[trigger] is_solution(r, g, s) ==> s[at as int]->0.value() >= digit.value(),
        decreases 9 - digit.value(),
    {
        board.board[at] = Some(digit);
        let ghost b = board@;
        assert(b =~= g.update(at as int, Some(digit)));
        let fits = rules.check_one(board, at);
        if fits {
            proof {
                lemma_rules_local(&r, g, at as int, Some(digit));
            }
            match board.next_open_index(at) {
                None => {
                    proof {
                        assert forall|i: int| is_cell(i) implies #[trigger] b[i] is Some by {
                            if i < at {
                                assert(g[i] is Some);
                            }
                        }
                        lemma_full(r, b);
                        lemma_branch(r, g, at as int, digit, b);
                        assert forall|s: Seq<Option<Digit>>| #[trigger] is_solution(r, g, s) implies !lex_lt(s, b) by {
                            assert(s[at as int] is Some);
                            if s[at as int] == Some(digit) {
                                lemma_branch(r, g, at as int, digit, s);
                            } else {
                                lemma_digit_value(digit);
                                lemma_digit_value(s[at as int]->0);
                                lemma_lex_at(r, g, at as int, s, b);
                            }
                        }
                    }
                    return true;
                },
                Some(next) => {
                    if solve_from(board, rules, next) {
                        proof {
                            let f = board@;
                            lemma_branch(r, g, at as int, digit, f);
                            assert forall|s: Seq<Option<Digit>>| #[trigger] is_solution(r, g, s) implies !lex_lt(s, f) by {
                                assert(s[at as int] is Some);
                                if s[at as int] == Some(digit) {
                                    lemma_branch(r, g, at as int, digit, s);
                                } else {
                                    lemma_digit_value(digit);
                                    lemma_digit_value(s[at as int]->0);
                                    lemma_lex_at(r, g, at as int, s, f);
                                }
                            }
                        }
                        return true;
                    }
                },
            }
        } else {
            proof {
                lemma_dead_end(r, b, at as int);
            }
        }
        proof {
            assert forall|s: Seq<Option<Digit>>| #[trigger] is_solution(r, g, s) implies s[at as int]->0.value() >= digit.value() + 1 by {
                if s[at as int] == Some(digit) {
                    lemma_branch(r, g, at as int, digit, s);
                }
            }
        }
        match digit.next() {
            Some(d) => {
                digit = d;
            },
            None => {
                board.board[at] = None;
                proof {
                    assert(board@ =~= g);
                    if solvable(r, g) {
                        let s = choose|s: Seq<Option<Digit>>| is_solution(r, g, s);
                        lemma_digit_value(s[at as int]->0);
                    }
                }
                return false;
            },
        }
    }
}

/// Counts the completions of `board`, whose cells before `at` are filled and
/// whose cell `at` is empty, up to `need` of them, stopping as soon as `need`
/// are found. Below `need` the count is exact and the board is left as it was.
fn count_from(board: &mut Board, rules: &Arbiter, at: usize, need: u8) -> (r: u8)
    requires
        at < 81,
        need == 1 || need == 2,
        old(board)@[at as int] is None,
        forall|j: int| 0 <= j < at ==> #[trigger] old(board)@[j] is Some,
        rules.ruleset().ok(old(board)@),
    ensures
        r <= need,
        r < need ==> final(board)@ == old(board)@,
        r == 0 <==> !solvable(rules.ruleset(), old(board)@),
        need == 2 && r == 1 ==> unique_solution(rules.ruleset(), old(board)@),
        r == 2 ==> two_solutions(rules.ruleset(), old(board)@),
    decreases 81 - at,
{
    let ghost r = rules.ruleset();
    let ghost g = board@;
    let ghost mut first: Seq<Option<Digit>> = g;
    let mut total: u8 = 0;
    let mut digit = Digit::_1;
    loop
        invariant
            r == rules.ruleset(),
            g == old(board)@,
            g.len() == 81,
            at < 81,
            need == 1 || need == 2,
            g[at as int] is None,
            forall|j: int| 0 <= j < at ==> #[trigger] g[j] is Some,
            r.ok(g),
            board@.len() == 81,
            forall|j: int| 0 <= j < 81 && j != at ==> #[trigger] board@[j] == g[j],
            total < need,
            total == 0 ==> forall|s: Seq<Option<Digit>>| #[trigger] is_solution(r, g, s) ==> s[at as int]->0.value() >= digit.value(),
            total == 1 ==> is_solution(r, g, first) && first[at as int]->0.value() < digit.value(),
            total == 1 ==> forall|s: Seq<Option<Digit>>| #[trigger] is_solution(r, g, s) && s[at as int]->0.value() < digit.value() ==> s == first,
        decreases 9 - digit.value(),
    {
        board.board[at] = Some(digit);
        let ghost b = board@;
        assert(b =~= g.update(at as int, Some(digit)));
        let fits = rules.check_one(board, at);
        let mut sub: u8 = 0;
        if fits {
            proof {
                lemma_rules_local(&r, g, at as int, Some(digit));
            }
            match board.next_open_index(at) {
                None => {
                    proof {
                        assert forall|i: int| is_cell(i) implies #[trigger] b[i] is Some by {
                            if i < at {
                                assert(g[i] is Some);
                            }
                        }
                        lemma_full(r, b);
                    }
                    sub = 1;
                },
                Some(next) => {
                    sub = count_from(board, rules, next, need - total);
                    if sub < need - total {
                        assert(board@ == b);
                    }
                },
            }
        } else {
            proof {
                lemma_dead_end(r, b, at as int);
            }
        }
        // Solutions of `b` are the solutions of `g` with `digit` at `at`.
        proof {
            assert forall|s: Seq<Option<Digit>>| is_solution(r, b, s) <==> (#[trigger] is_solution(r, g, s) && s[at as int] == Some(digit)) by {
                lemma_branch(r, g, at as int, digit, s);
            }
            lemma_digit_value(digit);
        }
        if total + sub == need {
            proof {
                if need == 1 {
                    let s = choose|s: Seq<Option<Digit>>| is_solution(r, b, s);
                    assert(is_solution(r, g, s));
                } else if total == 1 {
                    let s = choose|s: Seq<Option<Digit>>| is_solution(r, b, s);
                    assert(is_solution(r, g, s));
                    assert(s[at as int] != first[at as int]);
                    assert(is_solution(r, g, first));
                } else {
                    let (s, t) = choose|s: Seq<Option<Digit>>, t: Seq<Option<Digit>>|
                        #[trigger] is_solution(r, b, s) && #[trigger] is_solution(r, b, t) && s != t;
                    assert(is_solution(r, g, s));
                    assert(is_solution(r, g, t));
                }
            }
            return need;
        }
        proof {
            if sub == 1 {
                // Below `need`, this branch's one solution is the first found.
                assert(need - total == 2);
                let s = choose|s: Seq<Option<Digit>>| #[trigger] is_solution(r, b, s) && forall|t: Seq<Option<Digit>>|
                    #[trigger] is_solution(r, b, t) ==> t == s;
                first = s;
            }
        }
        total = total + sub;
        assert(board@ == b);
        proof {
            assert forall|s: Seq<Option<Digit>>| #[trigger] is_solution(r, g, s) && s[at as int]->0.value() < digit.value() + 1 && total == 1 implies s == first by {
                if s[at as int] == Some(digit) {
                    assert(is_solution(r, b, s));
                }
            }
            assert forall|s: Seq<Option<Digit>>| #[trigger] is_solution(r, g, s) && total == 0 implies s[at as int]->0.value() >= digit.value() + 1 by {
                if s[at as int] == Some(digit) {
                    assert(is_solution(r, b, s));
                }
            }
        }
        match digit.next() {
            Some(d) => {
                digit = d;
            },
            None => {
                board.board[at] = None;
                proof {
                    assert(board@ =~= g);
                    assert forall|s: Seq<Option<Digit>>| #[trigger] is_solution(r, g, s) implies s[at as int]->0.value() <= 9 by {
                        lemma_digit_value(s[at as int]->0);
                    }
                    if total == 1 {
                        assert(is_solution(r, g, first));
                    }
                }
                return total;
            },
        }
    }
}

/// A solver that tries digits in increasing order, cell by cell, and backs
/// up when a rule fails.
pub struct BacktrackingSolver {
    solution: Option<Board>,
    last: Ghost<Action>,
}

impl Default for BacktrackingSolver {
    fn default() -> (r: Self)
        ensures
            r.cached() is None,
    {
        BacktrackingSolver { solution: None, last: Ghost(Action::Abort) }
    }
}

impl BacktrackingSolver {
    /// A remembered solution is a full board.
    #[verifier::type_invariant]
    spec fn inv(&self) -> bool {
        self.solution matches Some(b) ==> !has_gap(b@)
    }

    /// The solution found for the first board this solver was asked about.
    pub closed spec fn cached(&self) -> Option<Board> {
        self.solution
    }

    /// The first solution of `board` in cell-by-cell order, if it has one.
    fn solve(&mut self, board: Board, rules: &Arbiter) -> (r: Option<Board>)
        ensures
            r is Some ==> is_solution(rules.ruleset(), board@, r->0@),
            r is Some ==> forall|s: Seq<Option<Digit>>| #[trigger] is_solution(rules.ruleset(), board@, s) ==> !lex_lt(s, r->0@),
            r is None ==> !solvable(rules.ruleset(), board@),
            r is Some ==> r->0@ == first_solution(rules.ruleset(), board@),
            *final(self) == *old(self),
    {
        solve_first(board, rules)
    }

    /// Classifies `board` by how many solutions it has.
    pub fn verify_board(&self, board: Board, rules: &Arbiter) -> (r: BoardStatus)
        ensures
            r == BoardStatus::AlreadySolved <==> solved(rules.ruleset(), board@),
            r == BoardStatus::Unsolvable <==> !solvable(rules.ruleset(), board@),
            r == BoardStatus::OneSolution <==> has_gap(board@) && unique_solution(rules.ruleset(), board@),
            r == BoardStatus::MultipleSolutions <==> two_solutions(rules.ruleset(), board@),
    {
        count_solutions(board, rules)
    }
}

impl Solver for BacktrackingSolver {
    closed spec fn proposed(&self) -> Action {
        self.last@
    }

    /// On its first call the solver searches for the first solution of the
    /// board and remembers it (giving up if there is none); every call then
    /// proposes to fill the board's empty cells from the remembered solution.
    fn make_move(&mut self, board: &Board, rules: &Arbiter) -> (r: Action)
        ensures
            old(self).cached() is None ==> (r is Abort <==> !solvable(rules.ruleset(), board@)),
            old(self).cached() is None ==> (final(self).cached() is Some <==> solvable(rules.ruleset(), board@)),
            old(self).cached() is None && final(self).cached() is Some ==> final(self).cached()->0@ == first_solution(rules.ruleset(), board@),
            old(self).cached() is None && final(self).cached() is Some ==> {
                &&& is_solution(rules.ruleset(), board@, final(self).cached()->0@)
                &&& forall|s: Seq<Option<Digit>>| #[trigger] is_solution(rules.ruleset(), board@, s) ==> !lex_lt(s, final(self).cached()->0@)
            },
            old(self).cached() is Some ==> final(self).cached() == old(self).cached(),
            r is Abort ==> final(self).cached() is None,
            final(self).cached() is Some ==> match r {
                Action::Place(list) => has_gap(board@) && list@ == moves_from(board@, final(self).cached()->0@, 0),
                Action::AlreadySolved => !has_gap(board@),
                Action::Abort => false,
            },
    {
        if self.solution.is_none() {
            let found = self.solve(*board, rules);
            self.solution = found;
            if self.solution.is_none() {
                self.last = Ghost(Action::Abort);
                return Action::Abort;
            }
        }
        proof {
            use_type_invariant(&*self);
        }
        let solution = self.solution.unwrap();
        let action = make_move_from_solution(board, &solution);
        self.last = Ghost(action);
        action
    }
}

/// The first solution of `board` in cell-by-cell order, if it has one.
pub(crate) fn solve_first(board: Board, rules: &Arbiter) -> (r: Option<Board>)
    ensures
        r is Some ==> is_solution(rules.ruleset(), board@, r->0@),
        r is Some ==> forall|s: Seq<Option<Digit>>| #[trigger] is_solution(rules.ruleset(), board@, s) ==> !lex_lt(s, r->0@),
        r is None ==> !solvable(rules.ruleset(), board@),
        r is Some ==> r->0@ == first_solution(rules.ruleset(), board@),
{
    let ghost r = rules.ruleset();
    let mut board = board;
    let ghost g = board@;
    if !rules.check(&board) {
        proof {
            if solvable(r, g) {
                let s = choose|s: Seq<Option<Digit>>| is_solution(r, g, s);
                lemma_rules_ok_monotone(&r, g, s);
            }
        }
        return None;
    }
    match board.first_open_index() {
        None => {
            proof {
                lemma_full(r, g);
                assert forall|s: Seq<Option<Digit>>| #[trigger] is_solution(r, g, s) implies !lex_lt(s, g) by {
                    if lex_lt(s, g) {
                        assert(s == g);
                        let i = choose|i: int| #![trigger s[i], g[i]]
                            is_cell(i) && (forall|j: int| 0 <= j < i ==> #[trigger] s[j] == g[j]) && s[i] is Some && g[i] is Some
                                && s[i]->0.value() < g[i]->0.value();
                    }
                }
            }
            proof {
                lemma_is_first_solution(r, g, board@);
            }
            Some(board)
        },
        Some(first) => {
            if solve_from(&mut board, rules, first) {
                proof {
                    lemma_is_first_solution(r, g, board@);
                }
                Some(board)
            } else {
                None
            }
        },
    }
}

/// Classifies `board` by how many solutions it has.
pub(crate) fn count_solutions(board: Board, rules: &Arbiter) -> (r: BoardStatus)
    ensures
        r == BoardStatus::AlreadySolved <==> solved(rules.ruleset(), board@),
        r == BoardStatus::Unsolvable <==> !solvable(rules.ruleset(), board@),
        r == BoardStatus::OneSolution <==> has_gap(board@) && unique_solution(rules.ruleset(), board@),
        r == BoardStatus::MultipleSolutions <==> two_solutions(rules.ruleset(), board@),
{
    let ghost r = rules.ruleset();
    let mut board = board;
    let ghost g = board@;
    proof {
        // Unique and two distinct solutions cannot both hold.
        if unique_solution(r, g) && two_solutions(r, g) {
            let s = choose|s: Seq<Option<Digit>>| #[trigger] is_solution(r, g, s) && forall|t: Seq<Option<Digit>>|
                #[trigger] is_solution(r, g, t) ==> t == s;
            let (a, b) = choose|a: Seq<Option<Digit>>, b: Seq<Option<Digit>>|
                #[trigger] is_solution(r, g, a) && #[trigger] is_solution(r, g, b) && a != b;
            assert(a == s && b == s);
        }
        if two_solutions(r, g) {
            let (a, b) = choose|a: Seq<Option<Digit>>, b: Seq<Option<Digit>>|
                #[trigger] is_solution(r, g, a) && #[trigger] is_solution(r, g, b) && a != b;
            assert(solvable(r, g));
        }
        if unique_solution(r, g) {
            let s = choose|s: Seq<Option<Digit>>| #[trigger] is_solution(r, g, s) && forall|t: Seq<Option<Digit>>|
                #[trigger] is_solution(r, g, t) ==> t == s;
            assert(solvable(r, g));
        }
    }
    if !rules.check(&board) {
        proof {
            if solvable(r, g) {
                let s = choose|s: Seq<Option<Digit>>| is_solution(r, g, s);
                lemma_rules_ok_monotone(&r, g, s);
            }
        }
        return BoardStatus::Unsolvable;
    }
    match board.first_open_index() {
        None => {
            proof {
                lemma_full(r, g);
            }
            BoardStatus::AlreadySolved
        },
        Some(first) => {
            let n = count_from(&mut board, rules, first, 2);
            if n == 0 {
                BoardStatus::Unsolvable
            } else if n == 1 {
                BoardStatus::OneSolution
            } else {
                BoardStatus::MultipleSolutions
            }
        },
    }
}

} // verus!
