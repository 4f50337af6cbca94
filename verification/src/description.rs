use vstd::prelude::*;

use crate::board::{is_cell, Board, Digit};
use crate::rules::{lines_on_grid, lines_view, Line, Rules};

verus! {

/// The cell a number of a description stands for: `0` is empty, `1..=9` a digit.
pub open spec fn cell_of_number(n: u32) -> Option<Digit> {
    if n == 0 {
        None
    } else {
        Digit::of_value(n as int)
    }
}

/// The number a description uses for a cell: `0` for empty, else the digit's value.
pub open spec fn number_of_cell(c: Option<Digit>) -> u32 {
    match c {
        Some(d) => d.value() as u32,
        None => 0u32,
    }
}

/// A number stands for the digit of that value: `0` for an empty cell, and
/// `1..=9` for the digit whose value it is.
pub proof fn lemma_cell_of_number(n: u32)
    requires
        n <= 9,
    ensures
        n == 0 ==> cell_of_number(n) is None,
        n != 0 ==> cell_of_number(n) is Some && cell_of_number(n)->0.value() == n,
{
    crate::board::lemma_of_value(n as int);
}

/// A cell is written as the value of its digit, or `0` when it is empty.
pub proof fn lemma_number_of_cell(c: Option<Digit>)
    ensures
        c is None ==> number_of_cell(c) == 0,
        c is Some ==> number_of_cell(c) == c->0.value(),
{
    if let Some(d) = c {
        crate::board::lemma_digit_value(d);
    }
}

/// Writing a cell as a number and reading it back gives the cell again, and
/// the number is at most 9.
pub proof fn lemma_number_roundtrip(c: Option<Digit>)
    ensures
        cell_of_number(number_of_cell(c)) == c,
        number_of_cell(c) <= 9,
{
    if let Some(d) = c {
        crate::board::lemma_digit_value(d);
    }
}

/// A game: a board and the rules it is played by.
#[derive(Debug)]
pub struct GameDescription {
    pub board: BoardDescription,
    pub rules: RulesDescription,
}

/// A board as plain data: its size and its numbers row by row
/// (`0` for an empty cell); no numbers at all stands for an empty board.
#[derive(Debug)]
pub struct BoardDescription {
    pub width: usize,
    pub height: usize,
    pub digits: Vec<u32>,
}

/// Which rules are in force, as plain data.
#[derive(Debug)]
pub struct RulesDescription {
    pub rows: bool,
    pub cols: bool,
    pub boxes: bool,
    pub knight: bool,
    pub thermometers: Vec<Line>,
}

impl BoardDescription {
    /// Whether the description has the shape of a nine-by-nine board.
    pub open spec fn fits(&self) -> bool {
        &&& self.width == 9
        &&& self.height == 9
        &&& (self.digits@.len() == 0 || self.digits@.len() == 81)
    }

    /// Whether every number of a fitting description is `0..=9`.
    pub open spec fn numbers_ok(&self) -> bool {
        self.fits() ==> forall|k: int| 0 <= k < self.digits@.len() ==> #[trigger] self.digits@[k] <= 9
    }

    /// The board described, or `Err` when the description does not fit a
    /// nine-by-nine board.
    pub fn build(self) -> (r: Result<Board, ()>)
        requires
            self.numbers_ok(),
        ensures
            r is Err <==> !self.fits(),
            r is Ok && self.digits@.len() == 0 ==> forall|i: int| is_cell(i) ==> #[trigger] r->Ok_0@[i] is None,
            r is Ok && self.digits@.len() == 81 ==> forall|i: int|
                is_cell(i) ==> #[trigger] r->Ok_0@[i] == cell_of_number(self.digits@[i]),
            r is Ok && self.digits@.len() == 81 ==> forall|i: int| is_cell(i) ==> {
                &&& self.digits@[i] == 0 ==> #[trigger] r->Ok_0@[i] is None
                &&& self.digits@[i] != 0 ==> r->Ok_0@[i] is Some && r->Ok_0@[i]->0.value() == self.digits@[i]
            },
    {
        if self.width != Board::WIDTH {
            return Err(());
        }
        if self.height != Board::HEIGHT {
            return Err(());
        }
        if !self.digits.is_empty() && self.digits.len() != self.width * self.height {
            return Err(());
        }
        if self.digits.is_empty() {
            Ok(Board::default())
        } else {
            let mut cells: [Option<Digit>; 81] = [None; 81];
            let mut i: usize = 0;
            while i < 81
                invariant
                    0 <= i <= 81,
                    self.digits@.len() == 81,
                    self.numbers_ok(),
                    self.fits(),
                    forall|j: int| 0 <= j < i ==> #[trigger] cells@[j] == cell_of_number(self.digits@[j]),
                decreases 81 - i,
            {
                let n = self.digits[i];
                if n == 0 {
                    cells[i] = None;
                } else {
                    assert(n <= 9);
                    cells[i] = Digit::from_u32(n);
                }
                i = i + 1;
            }
            proof {
                assert forall|i: int| is_cell(i) implies {
                    &&& self.digits@[i] == 0 ==> #[trigger] cells@[i] is None
                    &&& self.digits@[i] != 0 ==> cells@[i] is Some && cells@[i]->0.value() == self.digits@[i]
                } by {
                    lemma_cell_of_number(self.digits@[i]);
                }
            }
            Ok(Board { board: cells })
        }
    }
}

impl Default for BoardDescription {
    fn default() -> (r: Self)
        ensures
            r.width == 0,
            r.height == 0,
            r.digits@.len() == 0,
    {
        BoardDescription { width: 0, height: 0, digits: Vec::new() }
    }
}

impl RulesDescription {
    /// Rows, columns and boxes, and nothing else.
    pub fn standard_sudoku_rules() -> (r: Self)
        ensures
            r.rows,
            r.cols,
            r.boxes,
            !r.knight,
            r.thermometers@.len() == 0,
    {
        RulesDescription { rows: true, cols: true, boxes: true, knight: false, thermometers: Vec::new() }
    }

    /// The rules described.
    pub fn build(self) -> (r: Rules)
        requires
            lines_on_grid(lines_view(self.thermometers@)),
        ensures
            r.wf(),
            r.rows_on() == self.rows,
            r.cols_on() == self.cols,
            r.boxes_on() == self.boxes,
            r.knight_on() == self.knight,
            r.lines() == lines_view(self.thermometers@),
    {
        Rules::from(self)
    }
}

impl Default for RulesDescription {
    fn default() -> (r: Self)
        ensures
            !r.rows,
            !r.cols,
            !r.boxes,
            !r.knight,
            r.thermometers@.len() == 0,
    {
        RulesDescription { rows: false, cols: false, boxes: false, knight: false, thermometers: Vec::new() }
    }
}

impl GameDescription {
    /// The board and the rules described.
    pub fn build(self) -> (r: (Board, Rules))
        requires
            self.board.fits(),
            self.board.numbers_ok(),
            lines_on_grid(lines_view(self.rules.thermometers@)),
        ensures
            self.board.digits@.len() == 0 ==> forall|i: int| is_cell(i) ==> #[trigger] r.0@[i] is None,
            self.board.digits@.len() == 81 ==> forall|i: int|
                is_cell(i) ==> #[trigger] r.0@[i] == cell_of_number(self.board.digits@[i]),
            self.board.digits@.len() == 81 ==> forall|i: int| is_cell(i) ==> {
                &&& self.board.digits@[i] == 0 ==> #[trigger] r.0@[i] is None
                &&& self.board.digits@[i] != 0 ==> r.0@[i] is Some && r.0@[i]->0.value() == self.board.digits@[i]
            },
            r.1.wf(),
            r.1.rows_on() == self.rules.rows,
            r.1.cols_on() == self.rules.cols,
            r.1.boxes_on() == self.rules.boxes,
            r.1.knight_on() == self.rules.knight,
            r.1.lines() == lines_view(self.rules.thermometers@),
    {
        (self.board.build().unwrap(), self.rules.build())
    }
}

impl Default for GameDescription {
    fn default() -> (r: Self)
        ensures
            r.board.width == 0,
            r.board.height == 0,
            r.board.digits@.len() == 0,
            !r.rules.rows,
            !r.rules.cols,
            !r.rules.boxes,
            !r.rules.knight,
            r.rules.thermometers@.len() == 0,
    {
        GameDescription { board: BoardDescription::default(), rules: RulesDescription::default() }
    }
}

impl Board {
    /// The board as plain data: nine by nine, `0` for an empty cell.
    pub fn to_description(self) -> (r: BoardDescription)
        ensures
            r.width == 9,
            r.height == 9,
            r.digits@.len() == 81,
            forall|i: int| is_cell(i) ==> #[trigger] cell_of_number(r.digits@[i]) == self@[i],
            forall|i: int| is_cell(i) ==> #[trigger] r.digits@[i] == number_of_cell(self@[i]),
            forall|i: int| is_cell(i) ==> {
                &&& self@[i] is None ==> #[trigger] r.digits@[i] == 0
                &&& self@[i] is Some ==> r.digits@[i] == self@[i]->0.value()
            },
    {
        let mut digits: Vec<u32> = Vec::new();
        let mut i: usize = 0;
        while i < 81
            invariant
                0 <= i <= 81,
                digits@.len() == i,
                forall|j: int| 0 <= j < i ==> #[trigger] digits@[j] == number_of_cell(self@[j]),
            decreases 81 - i,
        {
            let n: u32 = match self.board[i] {
                Some(d) => u32::from(d),
                None => 0,
            };
            digits.push(n);
            i = i + 1;
        }
        proof {
            assert forall|i: int| is_cell(i) implies #[trigger] cell_of_number(digits@[i]) == self@[i] by {
                lemma_number_roundtrip(self@[i]);
            }
            assert forall|i: int| is_cell(i) implies {
                &&& self@[i] is None ==> #[trigger] digits@[i] == 0
                &&& self@[i] is Some ==> digits@[i] == self@[i]->0.value()
            } by {
                lemma_number_of_cell(self@[i]);
            }
        }
        BoardDescription { width: Board::WIDTH, height: Board::HEIGHT, digits }
    }
}

} // verus!
