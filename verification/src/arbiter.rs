use vstd::prelude::*;

use crate::board::{has_gap, is_cell, Board, Digit};
use crate::rules::{cell_at, lemma_coords_cell, lemma_rules_local, sub_grid, Rules};
use crate::solver::{Action, DigitPos, Solver};

verus! {

/// The outcome of a move.
#[derive(Debug, Clone, Copy, PartialEq, Eq, Structural)]
pub enum UpdateResult {
    Applied,
    IllegalMove,
    Done,
    Aborted,
}

impl UpdateResult {
    /// Whether the move was accepted.
    pub fn is_ok(&self) -> (r: bool)
        ensures
            r == (*self is Applied || *self is Done),
    {
        match self {
            UpdateResult::Applied | UpdateResult::Done => true,
            _ => false,
        }
    }
}

/// The grid after writing `moves` in order onto `g`, and whether every move
/// was legal; writing stops at the first illegal move (one onto a filled cell,
/// or one after which a rule fails at the written cell).
pub open spec fn apply_moves(rules: Rules, g: Seq<Option<Digit>>, moves: Seq<DigitPos>) -> (Seq<Option<Digit>>, bool)
    decreases moves.len(),
{
    if moves.len() == 0 {
        (g, true)
    } else {
        let i = moves[0].cell();
        if g[i] is Some {
            (g, false)
        } else {
            let g2 = g.update(i, Some(moves[0].digit));
            if rules.ok_at(g2, i) {
                apply_moves(rules, g2, moves.drop_first())
            } else {
                (g, false)
            }
        }
    }
}

/// Every move that writing `moves` in order onto `g` reaches names a cell on
/// the grid: the moves up to and including the first illegal one (writing
/// stops there, so later moves are never looked at).
pub open spec fn moves_on_grid(rules: Rules, g: Seq<Option<Digit>>, moves: Seq<DigitPos>) -> bool
    decreases moves.len(),
{
    if moves.len() == 0 {
        true
    } else {
        let i = moves[0].cell();
        &&& moves[0].on_grid()
        &&& g[i] is None ==> {
            let g2 = g.update(i, Some(moves[0].digit));
            rules.ok_at(g2, i) ==> moves_on_grid(rules, g2, moves.drop_first())
        }
    }
}

/// Every move of `action` that `Arbiter::update` reaches on `g` names a cell
/// on the grid.
pub open spec fn reaches_grid(rules: Rules, g: Seq<Option<Digit>>, action: Action) -> bool {
    match action {
        Action::Place(list) => moves_on_grid(rules, g, list@),
        _ => true,
    }
}

/// Moves that are all on the grid are on the grid wherever writing stops.
pub proof fn lemma_on_grid_reaches(rules: Rules, g: Seq<Option<Digit>>, moves: Seq<DigitPos>)
    requires
        forall|k: int| 0 <= k < moves.len() ==> (#[trigger] moves[k]).on_grid(),
    ensures
        moves_on_grid(rules, g, moves),
    decreases moves.len(),
{
    if moves.len() > 0 {
        let i = moves[0].cell();
        let rest = moves.drop_first();
        assert forall|k: int| 0 <= k < rest.len() implies (#[trigger] rest[k]).on_grid() by {
            assert(rest[k] == moves[k + 1]);
        }
        lemma_on_grid_reaches(rules, g.update(i, Some(moves[0].digit)), rest);
        assert(moves[0].on_grid());
    }
}

/// What writing moves does: a move onto a filled cell is refused at once,
/// leaving the grid as it is; and when every move is written, each one went
/// onto a cell that was empty and now holds its digit, and every cell that no
/// move names is as it was.
pub proof fn lemma_apply_moves_effect(rules: Rules, g: Seq<Option<Digit>>, moves: Seq<DigitPos>)
    requires
        g.len() == 81,
        moves_on_grid(rules, g, moves),
    ensures
        moves.len() > 0 && g[moves[0].cell()] is Some ==> apply_moves(rules, g, moves) == (g, false),
        apply_moves(rules, g, moves).1 ==> forall|k: int| 0 <= k < moves.len()
            ==> is_cell(#[trigger] moves[k].cell()) && g[moves[k].cell()] is None && apply_moves(rules, g, moves).0[moves[k].cell()] == Some(moves[k].digit),
        apply_moves(rules, g, moves).1 ==> forall|i: int| is_cell(i) && (forall|k: int| 0 <= k < moves.len() ==> #[trigger] moves[k].cell() != i)
            ==> apply_moves(rules, g, moves).0[i] == g[i],
    decreases moves.len(),
{
    if moves.len() > 0 {
        let i0 = moves[0].cell();
        lemma_coords_cell(moves[0].x as int, moves[0].y as int);
        if g[i0] is None {
            let g2 = g.update(i0, Some(moves[0].digit));
            if rules.ok_at(g2, i0) {
                let rest = moves.drop_first();
                lemma_apply_moves_effect(rules, g2, rest);
                let res = apply_moves(rules, g, moves);
                assert(res == apply_moves(rules, g2, rest));
                if res.1 {
                    assert forall|k: int| 0 <= k < moves.len() implies is_cell(#[trigger] moves[k].cell()) && g[moves[k].cell()] is None
                        && res.0[moves[k].cell()] == Some(moves[k].digit) by {
                        if k == 0 {
                            assert forall|m: int| 0 <= m < rest.len() implies #[trigger] rest[m].cell() != i0 by {
                                assert(g2[rest[m].cell()] is None);
                            }
                        } else {
                            assert(rest[k - 1] == moves[k]);
                            assert(g2[rest[k - 1].cell()] is None);
                        }
                    }
                    assert forall|i: int| is_cell(i) && (forall|k: int| 0 <= k < moves.len() ==> #[trigger] moves[k].cell() != i)
                        implies res.0[i] == g[i] by {
                        assert(moves[0].cell() != i);
                        assert forall|m: int| 0 <= m < rest.len() implies #[trigger] rest[m].cell() != i by {
                            assert(rest[m] == moves[m + 1]);
                        }
                    }
                }
            }
        }
    }
}

/// Whether `g` is full and obeys `rules`.
pub open spec fn solved(rules: Rules, g: Seq<Option<Digit>>) -> bool {
    !has_gap(g) && rules.ok(g)
}

/// What `Arbiter::update` does: the grid `after` and the result `r` that
/// applying `action` to `before` under `rules` gives.
pub open spec fn update_outcome(
    rules: Rules,
    before: Seq<Option<Digit>>,
    action: Action,
    after: Seq<Option<Digit>>,
    r: UpdateResult,
) -> bool {
    match action {
        Action::Place(list) => {
            let (g, legal) = apply_moves(rules, before, list@);
            &&& after == g
            &&& r == if legal { UpdateResult::Applied } else { UpdateResult::IllegalMove }
        },
        Action::Abort => after == before && r == UpdateResult::Aborted,
        Action::AlreadySolved => {
            &&& after == before
            &&& r == if solved(rules, before) { UpdateResult::Done } else { UpdateResult::IllegalMove }
        },
    }
}

/// What `Arbiter::step` does with the move `action`: an action that would
/// reach a cell off the grid is refused and changes nothing; any other is
/// applied as by `Arbiter::update`.
pub open spec fn step_outcome(
    rules: Rules,
    before: Seq<Option<Digit>>,
    action: Action,
    after: Seq<Option<Digit>>,
    r: UpdateResult,
) -> bool {
    if reaches_grid(rules, before, action) {
        update_outcome(rules, before, action, after, r)
    } else {
        after == before && r == UpdateResult::IllegalMove
    }
}

/// Referees a game: checks boards and applies moves under a set of rules.
pub struct Arbiter {
    rules: Rules,
}

impl Arbiter {
    #[verifier::type_invariant]
    spec fn inv(&self) -> bool {
        self.rules.wf()
    }

    /// The rules being refereed.
    pub closed spec fn ruleset(&self) -> Rules {
        self.rules
    }

    pub fn new(rules: Rules) -> (r: Self)
        ensures
            r.ruleset() == rules,
    {
        proof {
            use_type_invariant(&rules);
        }
        Arbiter { rules }
    }

    /// Whether the board obeys every rule.
    pub fn check(&self, board: &Board) -> (r: bool)
        ensures
            r == self.ruleset().ok(board@),
            self.ruleset().wf(),
    {
        proof {
            use_type_invariant(self);
        }
        self.rules.check(board)
    }

    /// Whether every rule holds at the cell `index`.
    pub fn check_one(&self, board: &Board, index: usize) -> (r: bool)
        requires
            index < 81,
        ensures
            r == self.ruleset().ok_at(board@, index as int),
            self.ruleset().wf(),
    {
        proof {
            use_type_invariant(self);
        }
        self.rules.check_one(board, index)
    }

    /// Whether the board is full and obeys every rule.
    pub fn is_solved(&self, board: &Board) -> (r: bool)
        ensures
            r == solved(self.ruleset(), board@),
            self.ruleset().wf(),
    {
        proof {
            use_type_invariant(self);
        }
        !board.has_gaps() && self.check(board)
    }

    /// Applies a move to the board. Digits of a `Set` are written in order,
    /// each onto an empty cell and only if the rules still hold at that cell;
    /// the first that is not stops the move, keeping the digits written before.
    pub fn update(&self, board: &mut Board, action: Action) -> (r: UpdateResult)
        requires
            reaches_grid(self.ruleset(), old(board)@, action),
        ensures
            update_outcome(self.ruleset(), old(board)@, action, final(board)@, r),
            match action {
                Action::Place(list) => {
                    &&& list@.len() > 0 && old(board)@[list@[0].cell()] is Some
                        ==> r == UpdateResult::IllegalMove && final(board)@ == old(board)@
                    &&& r == UpdateResult::Applied ==> forall|k: int| 0 <= k < list@.len()
                        ==> old(board)@[#[trigger] list@[k].cell()] is None && final(board)@[list@[k].cell()] == Some(list@[k].digit)
                    &&& r == UpdateResult::Applied ==> forall|i: int| is_cell(i) && (forall|k: int| 0 <= k < list@.len() ==> #[trigger] list@[k].cell() != i)
                        ==> final(board)@[i] == old(board)@[i]
                },
                _ => true,
            },
            sub_grid(old(board)@, final(board)@),
            self.ruleset().ok(old(board)@) ==> self.ruleset().ok(final(board)@),
    {
        proof {
            use_type_invariant(self);
        }
        match action {
            Action::Place(digit_list) => {
                let ghost rules = self.ruleset();
                let ghost start = board@;
                proof {
                    lemma_apply_moves_effect(rules, start, digit_list@);
                }
                let mut k: usize = 0;
                assert(digit_list@.subrange(0, digit_list@.len() as int) =~= digit_list@);
                while k < digit_list.len()
                    invariant
                        action is Place,
                        action->Place_0@ == digit_list@,
                        start == old(board)@,
                        rules == self.ruleset(),
                        rules.wf(),
                        0 <= k <= digit_list@.len(),
                        board@.len() == 81,
                        moves_on_grid(rules, board@, digit_list@.subrange(k as int, digit_list@.len() as int)),
                        apply_moves(rules, start, digit_list@) == apply_moves(rules, board@, digit_list@.subrange(k as int, digit_list@.len() as int)),
                        sub_grid(start, board@),
                        rules.ok(start) ==> rules.ok(board@),
                    decreases digit_list@.len() - k,
                {
                    let DigitPos { digit, x, y } = digit_list[k];
                    let ghost rest = digit_list@.subrange(k as int, digit_list@.len() as int);
                    assert(rest[0] == digit_list@[k as int]);
                    assert(rest.drop_first() =~= digit_list@.subrange(k + 1, digit_list@.len() as int));
                    assert(rest[0].cell() == cell_at(x as int, y as int));
                    assert(rest[0].on_grid());
                    if board.get(x, y).is_some() {
                        assert(apply_moves(rules, board@, rest) == (board@, false));
                        assert(apply_moves(rules, old(board)@, digit_list@) == (board@, false));
                        return UpdateResult::IllegalMove;
                    }
                    let mut new_board = *board;
                    new_board.set(x, y, digit);
                    let index = board.index(x, y);
                    if self.check_one(&new_board, index) {
                        proof {
                            if rules.ok(board@) {
                                lemma_rules_local(&rules, board@, index as int, Some(digit));
                            }
                        }
                        *board = new_board;
                    } else {
                        assert(apply_moves(rules, board@, rest) == (board@, false));
                        assert(apply_moves(rules, old(board)@, digit_list@) == (board@, false));
                        return UpdateResult::IllegalMove;
                    }
                    k = k + 1;
                }
                assert(digit_list@.subrange(k as int, digit_list@.len() as int) =~= Seq::<DigitPos>::empty());
                UpdateResult::Applied
            },
            Action::Abort => UpdateResult::Aborted,
            Action::AlreadySolved => {
                if !self.is_solved(board) {
                    return UpdateResult::IllegalMove;
                }
                UpdateResult::Done
            },
        }
    }

    /// Whether every move of `action` that `update` would reach on `board`
    /// names a cell on the grid.
    pub fn reaches_grid(&self, board: &Board, action: &Action) -> (r: bool)
        ensures
            r == reaches_grid(self.ruleset(), board@, *action),
    {
        proof {
            use_type_invariant(self);
        }
        match action {
            Action::Place(list) => {
                let ghost rules = self.ruleset();
                let mut b = *board;
                let mut k: usize = 0;
                assert(list@.subrange(0, list@.len() as int) =~= list@);
                while k < list.len()
                    invariant
                        *action is Place,
                        action->Place_0@ == list@,
                        rules == self.ruleset(),
                        rules.wf(),
                        0 <= k <= list@.len(),
                        b@.len() == 81,
                        moves_on_grid(rules, board@, list@) == moves_on_grid(rules, b@, list@.subrange(k as int, list@.len() as int)),
                    decreases list@.len() - k,
                {
                    let p = list[k];
                    let ghost rest = list@.subrange(k as int, list@.len() as int);
                    assert(rest[0] == list@[k as int]);
                    assert(rest.drop_first() =~= list@.subrange(k + 1, list@.len() as int));
                    if p.x >= 9 || p.y >= 9 {
                        return false;
                    }
                    assert(rest[0].cell() == cell_at(p.x as int, p.y as int));
                    if b.get(p.x, p.y).is_some() {
                        return true;
                    }
                    let mut next = b;
                    next.set(p.x, p.y, p.digit);
                    let index = b.index(p.x, p.y);
                    if !self.check_one(&next, index) {
                        return true;
                    }
                    b = next;
                    k = k + 1;
                }
                assert(list@.subrange(k as int, list@.len() as int) =~= Seq::<DigitPos>::empty());
                true
            },
            _ => true,
        }
    }

    /// Asks the solver for a move and applies it: the outcome is that of the
    /// move the solver proposed. A move that would reach a cell off the grid
    /// is refused as illegal and leaves the board as it is.
    pub fn step<S: Solver>(&self, board: &mut Board, solver: &mut S) -> (r: UpdateResult)
        ensures
            sub_grid(old(board)@, final(board)@),
            self.ruleset().ok(old(board)@) ==> self.ruleset().ok(final(board)@),
            r is Done ==> solved(self.ruleset(), final(board)@),
            exists|a: Action| #[trigger] step_outcome(self.ruleset(), old(board)@, a, final(board)@, r),
            step_outcome(self.ruleset(), old(board)@, final(solver).proposed(), final(board)@, r),
    {
        let action = solver.make_move(board, self);
        let ghost a = action;
        if !self.reaches_grid(board, &action) {
            assert(step_outcome(self.ruleset(), old(board)@, a, board@, UpdateResult::IllegalMove));
            return UpdateResult::IllegalMove;
        }
        let r = self.update(board, action);
        assert(step_outcome(self.ruleset(), old(board)@, a, board@, r));
        r
    }
}

} // verus!
