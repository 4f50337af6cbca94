use vstd::prelude::*;

use crate::board::{col_of, is_cell, lemma_digit_value, row_of, Board, Digit, DigitSet};
use crate::description::RulesDescription;

verus! {

/// Whether the filled cells of `g1` are filled alike in `g2`.
pub open spec fn sub_grid(g1: Seq<Option<Digit>>, g2: Seq<Option<Digit>>) -> bool {
    forall|i: int| is_cell(i) && #[trigger] g1[i] is Some ==> g2[i] == g1[i]
}

/// The cell at column `x`, row `y`.
pub open spec fn cell_at(x: int, y: int) -> int {
    y * 9 + x
}

/// Coordinates of a cell and the cell of coordinates agree.
pub proof fn lemma_cell_coords(i: int)
    requires
        is_cell(i),
    ensures
        0 <= col_of(i) < 9,
        0 <= row_of(i) < 9,
        cell_at(col_of(i), row_of(i)) == i,
{
}

/// The cell of coordinates has those coordinates.
pub proof fn lemma_coords_cell(x: int, y: int)
    requires
        0 <= x < 9,
        0 <= y < 9,
    ensures
        is_cell(cell_at(x, y)),
        col_of(cell_at(x, y)) == x,
        row_of(cell_at(x, y)) == y,
{
}

// ----- rows -----

/// No other cell of the row of `i` holds the digit of `i`.
pub open spec fn row_ok_at(g: Seq<Option<Digit>>, i: int) -> bool {
    g[i] is Some ==> forall|j: int|
        is_cell(j) && j != i && row_of(j) == row_of(i) ==> #[trigger] g[j] != g[i]
}

// ----- columns -----

/// No other cell of the column of `i` holds the digit of `i`.
pub open spec fn col_ok_at(g: Seq<Option<Digit>>, i: int) -> bool {
    g[i] is Some ==> forall|j: int|
        is_cell(j) && j != i && col_of(j) == col_of(i) ==> #[trigger] g[j] != g[i]
}

// ----- boxes -----

/// The three-by-three box of the cell at `i`, numbered row by row.
pub open spec fn box_of(i: int) -> int {
    (row_of(i) / 3) * 3 + col_of(i) / 3
}

/// No two distinct cells of the box of `i` hold the same digit.
pub open spec fn box_ok_at(g: Seq<Option<Digit>>, i: int) -> bool {
    forall|j: int, k: int|
        #![trigger g[j], g[k]]
        is_cell(j) && is_cell(k) && j != k && box_of(j) == box_of(i) && box_of(k) == box_of(i)
            && g[j] is Some ==> g[j] != g[k]
}

// ----- knight's move -----

/// Column offset of the `k`-th knight's move.
pub open spec fn knight_dx(k: int) -> int {
    if k == 0 {
        -1
    } else if k == 1 {
        -2
    } else if k == 2 {
        -2
    } else if k == 3 {
        -1
    } else if k == 4 {
        1
    } else if k == 5 {
        2
    } else if k == 6 {
        2
    } else {
        1
    }
}

/// Row offset of the `k`-th knight's move.
pub open spec fn knight_dy(k: int) -> int {
    if k == 0 {
        2
    } else if k == 1 {
        1
    } else if k == 2 {
        -1
    } else if k == 3 {
        -2
    } else if k == 4 {
        -2
    } else if k == 5 {
        -1
    } else if k == 6 {
        1
    } else {
        2
    }
}

/// Whether the `k`-th knight's move from `i` stays on the grid.
pub open spec fn knight_on_grid(i: int, k: int) -> bool {
    0 <= col_of(i) + knight_dx(k) < 9 && 0 <= row_of(i) + knight_dy(k) < 9
}

/// The cell reached by the `k`-th knight's move from `i`.
pub open spec fn knight_target(i: int, k: int) -> int {
    cell_at(col_of(i) + knight_dx(k), row_of(i) + knight_dy(k))
}

/// No cell a knight's move away from `i` holds the digit of `i`.
pub open spec fn knight_ok_at(g: Seq<Option<Digit>>, i: int) -> bool {
    g[i] is Some ==> forall|k: int|
        0 <= k < 8 && knight_on_grid(i, k) ==> #[trigger] g[knight_target(i, k)] != g[i]
}

// ----- thermometers -----

/// Whether the thermometer `t` passes through the cell `i`.
pub open spec fn thermo_has(t: Seq<usize>, i: int) -> bool {
    exists|a: int| 0 <= a < t.len() && t[a] == i
}

/// Whether the digits along `t` strictly increase, empty cells skipped.
pub open spec fn thermo_ok(t: Seq<usize>, g: Seq<Option<Digit>>) -> bool {
    forall|a: int, b: int|
        #![trigger g[t[a] as int], g[t[b] as int]]
        0 <= a < b < t.len() && g[t[a] as int] is Some && g[t[b] as int] is Some
            ==> g[t[a] as int]->0.value() < g[t[b] as int]->0.value()
}

/// Every thermometer through the cell `i` strictly increases.
pub open spec fn thermal_ok_at(ts: Seq<Seq<usize>>, g: Seq<Option<Digit>>, i: int) -> bool {
    forall|k: int| 0 <= k < ts.len() && #[trigger] thermo_has(ts[k], i) ==> thermo_ok(ts[k], g)
}

/// Whether `opt` holds `d`.
fn holds(opt: Option<Digit>, d: Digit) -> (r: bool)
    ensures
        r == (opt == Some(d)),
{
    match opt {
        Some(e) => e == d,
        None => false,
    }
}

/// A rule that a Sudoku board must obey, checked cell by cell.
pub trait SudokuRule {
    /// Whether the rule holds at the cell `i` of `g`.
    spec fn ok_at(&self, g: Seq<Option<Digit>>, i: int) -> bool;

    /// Whether the whole board obeys the rule: the rule holds at every cell.
    fn check(&self, board: &Board) -> (r: bool)
        ensures
            r == (forall|i: int| is_cell(i) ==> #[trigger] self.ok_at(board@, i)),
    {
        let mut i: usize = 0;
        while i < 81
            invariant
                0 <= i <= 81,
                forall|j: int| 0 <= j < i ==> #[trigger] self.ok_at(board@, j),
            decreases 81 - i,
        {
            if !self.check_one(board, i) {
                return false;
            }
            i = i + 1;
        }
        true
    }

    /// Whether the rule holds at the cell `index`.
    fn check_one(&self, board: &Board, index: usize) -> (r: bool)
        requires
            index < 81,
        ensures
            r == self.ok_at(board@, index as int),
    ;
}

/// Digits do not repeat within a row.
#[derive(Debug)]
pub struct SudokuRow;

impl SudokuRow {
    /// Whether the row `y` holds no digit twice.
    fn check_row(&self, board: &Board, y: usize) -> (r: bool)
        requires
            y < 9,
        ensures
            r == (forall|x: int| 0 <= x < 9 ==> #[trigger] row_ok_at(board@, cell_at(x, y as int))),
    {
        let ghost g = board@;
        let mut set = DigitSet::new();
        let mut i: usize = 0;
        while i < 9
            invariant
                0 <= i <= 9,
                y < 9,
                g == board@,
                forall|d: Digit| #[trigger] set.has(d) <==> exists|x: int|
                    0 <= x < i && g[cell_at(x, y as int)] == Some(d),
                forall|a: int, b: int|
                    0 <= a < i && 0 <= b < i && a != b && #[trigger] g[cell_at(a, y as int)] is Some
                        ==> g[cell_at(a, y as int)] != #[trigger] g[cell_at(b, y as int)],
            decreases 9 - i,
        {
            if let Some(digit) = board.get(i, y) {
                if set.get(digit) {
                    proof {
                        let x = choose|x: int| 0 <= x < i && g[cell_at(x, y as int)] == Some(digit);
                        lemma_coords_cell(x, y as int);
                        lemma_coords_cell(i as int, y as int);
                        assert(!row_ok_at(g, cell_at(x, y as int)));
                    }
                    return false;
                }
                let ghost old_set = set;
                set.set(digit);
                proof {
                    assert forall|d: Digit| #[trigger] set.has(d) <==> exists|x: int|
                        0 <= x < i + 1 && g[cell_at(x, y as int)] == Some(d) by {
                        old_set.lemma_len();
                        if d == digit {
                            assert(g[cell_at(i as int, y as int)] == Some(d));
                            assert(set.has(d));
                        } else {
                            assert(d.value() != digit.value());
                            assert(set.has(d) == old_set.has(d));
                            if exists|x: int| 0 <= x < i + 1 && g[cell_at(x, y as int)] == Some(d) {
                                let x = choose|x: int| 0 <= x < i + 1 && g[cell_at(x, y as int)] == Some(d);
                                assert(x != i);
                                assert(old_set.has(d));
                            }
                            if old_set.has(d) {
                                let x = choose|x: int| 0 <= x < i && g[cell_at(x, y as int)] == Some(d);
                                assert(0 <= x < i + 1 && g[cell_at(x, y as int)] == Some(d));
                            }
                        }
                    }
                }
            } else {
                proof {
                    assert forall|d: Digit| #[trigger] set.has(d) <==> exists|x: int|
                        0 <= x < i + 1 && g[cell_at(x, y as int)] == Some(d) by {
                        if exists|x: int| 0 <= x < i + 1 && g[cell_at(x, y as int)] == Some(d) {
                            let x = choose|x: int| 0 <= x < i + 1 && g[cell_at(x, y as int)] == Some(d);
                            assert(x != i);
                        }
                    }
                }
            }
            i = i + 1;
        }
        proof {
            assert forall|x: int| 0 <= x < 9 implies #[trigger] row_ok_at(g, cell_at(x, y as int)) by {
                lemma_coords_cell(x, y as int);
                assert forall|j: int|
                    is_cell(j) && j != cell_at(x, y as int) && row_of(j) == row_of(cell_at(x, y as int))
                        && g[cell_at(x, y as int)] is Some implies #[trigger] g[j] != g[cell_at(x, y as int)] by {
                    lemma_cell_coords(j);
                    assert(g[cell_at(col_of(j), y as int)] != g[cell_at(x, y as int)]);
                }
            }
        }
        true
    }
}

impl SudokuRule for SudokuRow {
    open spec fn ok_at(&self, g: Seq<Option<Digit>>, i: int) -> bool {
        row_ok_at(g, i)
    }

    fn check(&self, board: &Board) -> (r: bool) {
        let mut y: usize = 0;
        while y < 9
            invariant
                0 <= y <= 9,
                forall|i: int| is_cell(i) && row_of(i) < y ==> #[trigger] row_ok_at(board@, i),
            decreases 9 - y,
        {
            if !self.check_row(board, y) {
                proof {
                    let x = choose|x: int| 0 <= x < 9 && !#[trigger] row_ok_at(board@, cell_at(x, y as int));
                    lemma_coords_cell(x, y as int);
                    assert(!self.ok_at(board@, cell_at(x, y as int)));
                }
                return false;
            }
            proof {
                assert forall|i: int| is_cell(i) && row_of(i) < y + 1 implies #[trigger] row_ok_at(board@, i) by {
                    lemma_cell_coords(i);
                    if row_of(i) == y {
                        assert(row_ok_at(board@, cell_at(col_of(i), y as int)));
                    }
                }
            }
            y = y + 1;
        }
        true
    }

    fn check_one(&self, board: &Board, index: usize) -> (r: bool) {
        let ghost g = board@;
        if let Some(digit) = board.board[index] {
            let (x, y) = board.xy(index);
            let mut i: usize = 0;
            while i < 9
                invariant
                    0 <= i <= 9,
                    g == board@,
                    index < 81,
                    x == col_of(index as int),
                    y == row_of(index as int),
                    y < 9,
                    g[index as int] == Some(digit),
                    forall|c: int| 0 <= c < i && c != x ==> #[trigger] g[cell_at(c, y as int)] != g[index as int],
                decreases 9 - i,
            {
                if x != i && holds(board.get(i, y), digit) {
                    proof {
                        lemma_coords_cell(i as int, y as int);
                        lemma_cell_coords(index as int);
                        assert(g[cell_at(i as int, y as int)] == g[index as int]);
                    }
                    return false;
                }
                i = i + 1;
            }
            proof {
                assert forall|j: int|
                    is_cell(j) && j != index && row_of(j) == row_of(index as int) implies #[trigger] g[j] != g[index as int] by {
                    lemma_cell_coords(j);
                    lemma_cell_coords(index as int);
                    assert(g[cell_at(col_of(j), y as int)] != g[index as int]);
                }
            }
        }
        true
    }
}

/// Digits do not repeat within a column.
#[derive(Debug)]
pub struct SudokuColumn;

impl SudokuColumn {
    /// Whether the column `x` holds no digit twice.
    fn check_column(&self, board: &Board, y: usize) -> (r: bool)
        requires
            y < 9,
        ensures
            r == (forall|x: int| 0 <= x < 9 ==> #[trigger] col_ok_at(board@, cell_at(y as int, x))),
    {
        let ghost g = board@;
        let mut set = DigitSet::new();
        let mut i: usize = 0;
        while i < 9
            invariant
                0 <= i <= 9,
                y < 9,
                g == board@,
                forall|d: Digit| #[trigger] set.has(d) <==> exists|x: int|
                    0 <= x < i && g[cell_at(y as int, x)] == Some(d),
                forall|a: int, b: int|
                    0 <= a < i && 0 <= b < i && a != b && #[trigger] g[cell_at(y as int, a)] is Some
                        ==> g[cell_at(y as int, a)] != #[trigger] g[cell_at(y as int, b)],
            decreases 9 - i,
        {
            if let Some(digit) = board.get(y, i) {
                if set.get(digit) {
                    proof {
                        let x = choose|x: int| 0 <= x < i && g[cell_at(y as int, x)] == Some(digit);
                        lemma_coords_cell(y as int, x);
                        lemma_coords_cell(y as int, i as int);
                        assert(!col_ok_at(g, cell_at(y as int, x)));
                    }
                    return false;
                }
                let ghost old_set = set;
                set.set(digit);
                proof {
                    assert forall|d: Digit| #[trigger] set.has(d) <==> exists|x: int|
                        0 <= x < i + 1 && g[cell_at(y as int, x)] == Some(d) by {
                        old_set.lemma_len();
                        if d == digit {
                            assert(g[cell_at(y as int, i as int)] == Some(d));
                            assert(set.has(d));
                        } else {
                            assert(d.value() != digit.value());
                            assert(set.has(d) == old_set.has(d));
                            if exists|x: int| 0 <= x < i + 1 && g[cell_at(y as int, x)] == Some(d) {
                                let x = choose|x: int| 0 <= x < i + 1 && g[cell_at(y as int, x)] == Some(d);
                                assert(x != i);
                                assert(old_set.has(d));
                            }
                            if old_set.has(d) {
                                let x = choose|x: int| 0 <= x < i && g[cell_at(y as int, x)] == Some(d);
                                assert(0 <= x < i + 1 && g[cell_at(y as int, x)] == Some(d));
                            }
                        }
                    }
                }
            } else {
                proof {
                    assert forall|d: Digit| #[trigger] set.has(d) <==> exists|x: int|
                        0 <= x < i + 1 && g[cell_at(y as int, x)] == Some(d) by {
                        if exists|x: int| 0 <= x < i + 1 && g[cell_at(y as int, x)] == Some(d) {
                            let x = choose|x: int| 0 <= x < i + 1 && g[cell_at(y as int, x)] == Some(d);
                            assert(x != i);
                        }
                    }
                }
            }
            i = i + 1;
        }
        proof {
            assert forall|x: int| 0 <= x < 9 implies #[trigger] col_ok_at(g, cell_at(y as int, x)) by {
                lemma_coords_cell(y as int, x);
                assert forall|j: int|
                    is_cell(j) && j != cell_at(y as int, x) && col_of(j) == col_of(cell_at(y as int, x))
                        && g[cell_at(y as int, x)] is Some implies #[trigger] g[j] != g[cell_at(y as int, x)] by {
                    lemma_cell_coords(j);
                    assert(g[cell_at(y as int, row_of(j))] != g[cell_at(y as int, x)]);
                }
            }
        }
        true
    }
}

impl SudokuRule for SudokuColumn {
    open spec fn ok_at(&self, g: Seq<Option<Digit>>, i: int) -> bool {
        col_ok_at(g, i)
    }

    fn check(&self, board: &Board) -> (r: bool) {
        let mut y: usize = 0;
        while y < 9
            invariant
                0 <= y <= 9,
                forall|i: int| is_cell(i) && col_of(i) < y ==> #[trigger] col_ok_at(board@, i),
            decreases 9 - y,
        {
            if !self.check_column(board, y) {
                proof {
                    let x = choose|x: int| 0 <= x < 9 && !#[trigger] col_ok_at(board@, cell_at(y as int, x));
                    lemma_coords_cell(y as int, x);
                    assert(!self.ok_at(board@, cell_at(y as int, x)));
                }
                return false;
            }
            proof {
                assert forall|i: int| is_cell(i) && col_of(i) < y + 1 implies #[trigger] col_ok_at(board@, i) by {
                    lemma_cell_coords(i);
                    if col_of(i) == y {
                        assert(col_ok_at(board@, cell_at(y as int, row_of(i))));
                    }
                }
            }
            y = y + 1;
        }
        true
    }

    fn check_one(&self, board: &Board, index: usize) -> (r: bool) {
        let ghost g = board@;
        if let Some(digit) = board.board[index] {
            let (x, y) = board.xy(index);
            let mut j: usize = 0;
            while j < 9
                invariant
                    0 <= j <= 9,
                    g == board@,
                    index < 81,
                    x == col_of(index as int),
                    y == row_of(index as int),
                    x < 9,
                    g[index as int] == Some(digit),
                    forall|c: int| 0 <= c < j && c != y ==> #[trigger] g[cell_at(x as int, c)] != g[index as int],
                decreases 9 - j,
            {
                if y != j && holds(board.get(x, j), digit) {
                    proof {
                        lemma_coords_cell(x as int, j as int);
                        lemma_cell_coords(index as int);
                        assert(g[cell_at(x as int, j as int)] == g[index as int]);
                    }
                    return false;
                }
                j = j + 1;
            }
            proof {
                assert forall|k: int|
                    is_cell(k) && k != index && col_of(k) == col_of(index as int) implies #[trigger] g[k] != g[index as int] by {
                    lemma_cell_coords(k);
                    lemma_cell_coords(index as int);
                    assert(g[cell_at(x as int, row_of(k))] != g[index as int]);
                }
            }
        }
        true
    }
}

/// The `n`-th cell of the box whose top-left cell is at column `bx`, row `by`,
/// taking the box column by column.
pub open spec fn box_cell(bx: int, by: int, n: int) -> int {
    cell_at(bx + n / 3, by + n % 3)
}

/// The nine cells `box_cell(bx, by, 0..9)` are the distinct cells of the box of `index`.
proof fn lemma_box_cells(index: int, bx: int, by: int)
    requires
        is_cell(index),
        bx == col_of(index) - col_of(index) % 3,
        by == row_of(index) - row_of(index) % 3,
    ensures
        0 <= bx <= 6,
        0 <= by <= 6,
        forall|n: int| 0 <= n < 9 ==> is_cell(#[trigger] box_cell(bx, by, n)) && box_of(box_cell(bx, by, n)) == box_of(index),
        forall|n: int, m: int| 0 <= n < 9 && 0 <= m < 9 && n != m ==> #[trigger] box_cell(bx, by, n) != #[trigger] box_cell(bx, by, m),
        forall|c: int| #![trigger box_of(c)] is_cell(c) && box_of(c) == box_of(index) ==>
            0 <= (col_of(c) - bx) * 3 + (row_of(c) - by) < 9
            && box_cell(bx, by, (col_of(c) - bx) * 3 + (row_of(c) - by)) == c,
{
    assert forall|n: int| 0 <= n < 9 implies is_cell(#[trigger] box_cell(bx, by, n)) && box_of(box_cell(bx, by, n)) == box_of(index) by {
        lemma_coords_cell(bx + n / 3, by + n % 3);
    }
    assert forall|n: int, m: int| 0 <= n < 9 && 0 <= m < 9 && n != m implies #[trigger] box_cell(bx, by, n) != #[trigger] box_cell(bx, by, m) by {
        lemma_coords_cell(bx + n / 3, by + n % 3);
        lemma_coords_cell(bx + m / 3, by + m % 3);
    }
    assert forall|c: int| #![trigger box_of(c)] is_cell(c) && box_of(c) == box_of(index) implies
        0 <= (col_of(c) - bx) * 3 + (row_of(c) - by) < 9
        && box_cell(bx, by, (col_of(c) - bx) * 3 + (row_of(c) - by)) == c by {
        lemma_cell_coords(c);
        let n = (col_of(c) - bx) * 3 + (row_of(c) - by);
        assert(n / 3 == col_of(c) - bx);
        assert(n % 3 == row_of(c) - by);
    }
}

/// Digits do not repeat within a three-by-three box.
#[derive(Debug)]
pub struct SudokuBox;

impl SudokuRule for SudokuBox {
    open spec fn ok_at(&self, g: Seq<Option<Digit>>, i: int) -> bool {
        box_ok_at(g, i)
    }

    fn check(&self, board: &Board) -> (r: bool) {
        let mut i: usize = 0;
        while i < 3
            invariant
                0 <= i <= 3,
                forall|c: int| is_cell(c) && col_of(c) / 3 < i ==> #[trigger] box_ok_at(board@, c),
            decreases 3 - i,
        {
            let mut j: usize = 0;
            while j < 3
                invariant
                    0 <= i < 3,
                    0 <= j <= 3,
                    forall|c: int| is_cell(c) && (col_of(c) / 3 < i || (col_of(c) / 3 == i && row_of(c) / 3 < j)) ==> #[trigger] box_ok_at(board@, c),
                decreases 3 - j,
            {
                let start = board.index(i * 3, j * 3);
                if !self.check_one(board, start) {
                    assert(!self.ok_at(board@, start as int));
                    return false;
                }
                proof {
                    assert forall|c: int| is_cell(c) && (col_of(c) / 3 < i || (col_of(c) / 3 == i && row_of(c) / 3 < j + 1)) implies #[trigger] box_ok_at(board@, c) by {
                        if col_of(c) / 3 == i && row_of(c) / 3 == j {
                            assert(box_of(c) == box_of(start as int));
                        }
                    }
                }
                j = j + 1;
            }
            i = i + 1;
        }
        true
    }

    fn check_one(&self, board: &Board, index: usize) -> (r: bool) {
        let ghost g = board@;
        let (x, y) = board.xy(index);
        let mut set = DigitSet::new();
        let box_start_x = x - (x % 3);
        let box_start_y = y - (y % 3);
        proof {
            lemma_box_cells(index as int, box_start_x as int, box_start_y as int);
        }
        let ghost bx = box_start_x as int;
        let ghost by = box_start_y as int;
        let mut n: usize = 0;
        while n < 9
            invariant
                0 <= n <= 9,
                g == board@,
                bx == box_start_x,
                by == box_start_y,
                0 <= bx <= 6,
                0 <= by <= 6,
                forall|m: int| 0 <= m < 9 ==> is_cell(#[trigger] box_cell(bx, by, m)) && box_of(box_cell(bx, by, m)) == box_of(index as int),
                forall|m: int, l: int| 0 <= m < 9 && 0 <= l < 9 && m != l ==> #[trigger] box_cell(bx, by, m) != #[trigger] box_cell(bx, by, l),
                forall|d: Digit| #[trigger] set.has(d) <==> exists|m: int|
                    0 <= m < n && g[box_cell(bx, by, m)] == Some(d),
                forall|a: int, b: int|
                    0 <= a < n && 0 <= b < n && a != b && #[trigger] g[box_cell(bx, by, a)] is Some
                        ==> g[box_cell(bx, by, a)] != #[trigger] g[box_cell(bx, by, b)],
            decreases 9 - n,
        {
            let i = box_start_x + n / 3;
            let j = box_start_y + n % 3;
            assert(cell_at(i as int, j as int) == box_cell(bx, by, n as int));
            if let Some(digit) = board.get(i, j) {
                if set.get(digit) {
                    proof {
                        let m = choose|m: int| 0 <= m < n && g[box_cell(bx, by, m)] == Some(digit);
                        assert(box_cell(bx, by, m) != box_cell(bx, by, n as int));
                        assert(g[box_cell(bx, by, m)] == g[box_cell(bx, by, n as int)]);
                        assert(!box_ok_at(g, index as int));
                    }
                    return false;
                }
                let ghost old_set = set;
                set.set(digit);
                proof {
                    assert forall|d: Digit| #[trigger] set.has(d) <==> exists|m: int|
                        0 <= m < n + 1 && g[box_cell(bx, by, m)] == Some(d) by {
                        old_set.lemma_len();
                        if d == digit {
                            assert(g[box_cell(bx, by, n as int)] == Some(d));
                            assert(set.has(d));
                        } else {
                            assert(d.value() != digit.value());
                            assert(set.has(d) == old_set.has(d));
                            if exists|m: int| 0 <= m < n + 1 && g[box_cell(bx, by, m)] == Some(d) {
                                let m = choose|m: int| 0 <= m < n + 1 && g[box_cell(bx, by, m)] == Some(d);
                                assert(m != n);
                                assert(old_set.has(d));
                            }
                            if old_set.has(d) {
                                let m = choose|m: int| 0 <= m < n && g[box_cell(bx, by, m)] == Some(d);
                                assert(0 <= m < n + 1 && g[box_cell(bx, by, m)] == Some(d));
                            }
                        }
                    }
                }
            } else {
                proof {
                    assert forall|d: Digit| #[trigger] set.has(d) <==> exists|m: int|
                        0 <= m < n + 1 && g[box_cell(bx, by, m)] == Some(d) by {
                        if exists|m: int| 0 <= m < n + 1 && g[box_cell(bx, by, m)] == Some(d) {
                            let m = choose|m: int| 0 <= m < n + 1 && g[box_cell(bx, by, m)] == Some(d);
                            assert(m != n);
                        }
                    }
                }
            }
            n = n + 1;
        }
        proof {
            assert forall|c: int, e: int|
                is_cell(c) && is_cell(e) && c != e && box_of(c) == box_of(index as int) && box_of(e) == box_of(index as int)
                    && g[c] is Some implies #[trigger] g[c] != #[trigger] g[e] by {
                let nc = (col_of(c) - bx) * 3 + (row_of(c) - by);
                let ne = (col_of(e) - bx) * 3 + (row_of(e) - by);
                assert(box_cell(bx, by, nc) == c);
                assert(box_cell(bx, by, ne) == e);
                assert(g[box_cell(bx, by, nc)] != g[box_cell(bx, by, ne)]);
            }
        }
        true
    }
}

/// The `k`-th knight's move as column and row offsets.
fn knight_offset(k: usize) -> (r: (isize, isize))
    requires
        k < 8,
    ensures
        r.0 == knight_dx(k as int),
        r.1 == knight_dy(k as int),
{
    match k {
        0 => (-1, 2),
        1 => (-2, 1),
        2 => (-2, -1),
        3 => (-1, -2),
        4 => (1, -2),
        5 => (2, -1),
        6 => (2, 1),
        _ => (1, 2),
    }
}

/// A digit may not appear a knight's move away from itself.
#[derive(Debug)]
pub struct KnightsMove;

impl SudokuRule for KnightsMove {
    open spec fn ok_at(&self, g: Seq<Option<Digit>>, i: int) -> bool {
        knight_ok_at(g, i)
    }

    fn check_one(&self, board: &Board, index: usize) -> (r: bool) {
        let ghost g = board@;
        let (x, y) = board.xy(index);
        if let Some(digit) = board.get(x, y) {
            let mut k: usize = 0;
            while k < 8
                invariant
                    0 <= k <= 8,
                    g == board@,
                    index < 81,
                    x == col_of(index as int),
                    y == row_of(index as int),
                    x < 9,
                    y < 9,
                    g[index as int] == Some(digit),
                    forall|l: int| 0 <= l < k && knight_on_grid(index as int, l) ==> #[trigger] g[knight_target(index as int, l)] != g[index as int],
                decreases 8 - k,
            {
                let (d_x, d_y) = knight_offset(k);
                let xi: isize = x as isize + d_x;
                let yj: isize = y as isize + d_y;
                if xi >= 0 && yj >= 0 {
                    let i = xi as usize;
                    let j = yj as usize;
                    if board.in_bounds(i, j) {
                        if holds(board.get(i, j), digit) {
                            assert(knight_on_grid(index as int, k as int));
                            assert(g[knight_target(index as int, k as int)] == g[index as int]);
                            return false;
                        }
                    }
                }
                k = k + 1;
            }
        }
        true
    }
}

/// A thermometer: the cells it runs through, from bulb to tip.
pub type Line = Vec<usize>;

/// Whether every cell named by the thermometers is on the grid.
pub open spec fn lines_on_grid(ts: Seq<Seq<usize>>) -> bool {
    forall|k: int, a: int| 0 <= k < ts.len() && 0 <= a < ts[k].len() ==> #[trigger] ts[k][a] < 81
}

/// The views of a list of thermometers.
pub open spec fn lines_view(lines: Seq<Line>) -> Seq<Seq<usize>> {
    lines.map_values(|t: Line| t@)
}

/// Whether the digits along `thermometer` strictly increase from the bulb.
fn check_thermometer(thermometer: &Line, board: &Board) -> (r: bool)
    requires
        forall|a: int| 0 <= a < thermometer@.len() ==> #[trigger] thermometer@[a] < 81,
    ensures
        r == thermo_ok(thermometer@, board@),
{
    let ghost t = thermometer@;
    let ghost g = board@;
    let mut last: u32 = 0;
    let mut a: usize = 0;
    while a < thermometer.len()
        invariant
            t == thermometer@,
            g == board@,
            0 <= a <= t.len(),
            forall|b: int| 0 <= b < t.len() ==> #[trigger] t[b] < 81,
            forall|p: int, q: int|
                #![trigger g[t[p] as int], g[t[q] as int]]
                0 <= p < q < a && g[t[p] as int] is Some && g[t[q] as int] is Some
                    ==> g[t[p] as int]->0.value() < g[t[q] as int]->0.value(),
            forall|p: int| 0 <= p < a && #[trigger] g[t[p] as int] is Some ==> g[t[p] as int]->0.value() <= last,
            last == 0 || exists|p: int| 0 <= p < a && #[trigger] g[t[p] as int] is Some && g[t[p] as int]->0.value() == last,
            last <= 9,
        decreases t.len() - a,
    {
        let index = thermometer[a];
        if let Some(digit) = board.board[index] {
            let num: u32 = u32::from(digit);
            if num <= last {
                proof {
                    lemma_digit_value(digit);
                    let p = choose|p: int| 0 <= p < a && #[trigger] g[t[p] as int] is Some && g[t[p] as int]->0.value() == last;
                    assert(g[t[a as int] as int] == Some(digit));
                    assert(!(g[t[p] as int]->0.value() < g[t[a as int] as int]->0.value()));
                }
                return false;
            }
            proof {
                lemma_digit_value(digit);
                assert(g[t[a as int] as int]->0.value() == num);
            }
            last = num;
        }
        a = a + 1;
    }
    true
}

/// Digits strictly increase along each thermometer, from bulb to tip.
pub struct ThermalSudoku {
    thermometers: Vec<Line>,
    /// For each cell, the thermometers that pass through it.
    lookup: Vec<Vec<usize>>,
}

impl ThermalSudoku {
    /// The thermometers, each as the sequence of its cells.
    pub closed spec fn lines(&self) -> Seq<Seq<usize>> {
        lines_view(self.thermometers@)
    }

    /// The thermometers lie on the grid and the lookup table lists, for each
    /// cell, exactly the thermometers through it.
    #[verifier::type_invariant]
    pub closed spec fn wf(&self) -> bool {
        &&& self.lines().len() == self.thermometers@.len()
        &&& lines_on_grid(self.lines())
        &&& self.lookup@.len() == 81
        &&& forall|c: int, p: int| 0 <= c < 81 && 0 <= p < self.lookup@[c]@.len() ==> {
            &&& #[trigger] self.lookup@[c]@[p] < self.lines().len()
            &&& thermo_has(self.lines()[self.lookup@[c]@[p] as int], c)
        }
        &&& forall|c: int, k: int| 0 <= c < 81 && 0 <= k < self.lines().len() && #[trigger] thermo_has(self.lines()[k], c)
            ==> self.lookup@[c]@.contains(k as usize)
    }

    /// A rule for the given thermometers.
    pub fn new(thermometers: Vec<Line>) -> (r: Self)
        requires
            lines_on_grid(lines_view(thermometers@)),
        ensures
            r.wf(),
            r.lines() == lines_view(thermometers@),
    {
        let ghost ts = lines_view(thermometers@);
        let mut lookup: Vec<Vec<usize>> = Vec::new();
        let mut c: usize = 0;
        while c < 81
            invariant
                0 <= c <= 81,
                lookup@.len() == c,
                forall|e: int| 0 <= e < c ==> (#[trigger] lookup@[e])@.len() == 0,
            decreases 81 - c,
        {
            lookup.push(Vec::new());
            c = c + 1;
        }
        let mut id: usize = 0;
        while id < thermometers.len()
            invariant
                0 <= id <= thermometers@.len(),
                ts == lines_view(thermometers@),
                lines_on_grid(ts),
                lookup@.len() == 81,
                forall|c: int, p: int| 0 <= c < 81 && 0 <= p < lookup@[c]@.len() ==> {
                    &&& #[trigger] lookup@[c]@[p] < id
                    &&& thermo_has(ts[lookup@[c]@[p] as int], c)
                },
                forall|c: int, k: int| 0 <= c < 81 && 0 <= k < id && #[trigger] thermo_has(ts[k], c)
                    ==> lookup@[c]@.contains(k as usize),
            decreases thermometers@.len() - id,
        {
            let thermometer = &thermometers[id];
            assert(ts[id as int] == thermometer@);
            let mut a: usize = 0;
            while a < thermometer.len()
                invariant
                    0 <= id < thermometers@.len(),
                    0 <= a <= thermometer@.len(),
                    ts == lines_view(thermometers@),
                    ts[id as int] == thermometer@,
                    lines_on_grid(ts),
                    lookup@.len() == 81,
                    forall|c: int, p: int| 0 <= c < 81 && 0 <= p < lookup@[c]@.len() ==> {
                        &&& #[trigger] lookup@[c]@[p] < id + 1
                        &&& thermo_has(ts[lookup@[c]@[p] as int], c)
                    },
                    forall|c: int, k: int| 0 <= c < 81 && 0 <= k < id && #[trigger] thermo_has(ts[k], c)
                        ==> lookup@[c]@.contains(k as usize),
                    forall|b: int| 0 <= b < a ==> lookup@[#[trigger] thermometer@[b] as int]@.contains(id),
                decreases thermometer@.len() - a,
            {
                let idx = thermometer[a];
                assert(ts[id as int][a as int] == idx);
                assert(idx < 81);
                let ghost before = lookup@;
                lookup[idx].push(id);
                proof {
                    assert(lookup@[idx as int]@ == before[idx as int]@.push(id));
                    assert forall|c: int, p: int| 0 <= c < 81 && 0 <= p < lookup@[c]@.len() implies {
                        &&& #[trigger] lookup@[c]@[p] < id + 1
                        &&& thermo_has(ts[lookup@[c]@[p] as int], c)
                    } by {
                        if c == idx && p == before[c]@.len() {
                            assert(thermo_has(ts[id as int], c));
                        } else {
                            assert(lookup@[c]@[p] == before[c]@[p]);
                        }
                    }
                    assert forall|c: int, k: int| 0 <= c < 81 && 0 <= k < id && #[trigger] thermo_has(ts[k], c)
                        implies lookup@[c]@.contains(k as usize) by {
                        assert(before[c]@.contains(k as usize));
                        let p = choose|p: int| 0 <= p < before[c]@.len() && before[c]@[p] == k as usize;
                        assert(lookup@[c]@[p] == k as usize);
                    }
                    assert forall|b: int| 0 <= b < a + 1 implies lookup@[#[trigger] thermometer@[b] as int]@.contains(id) by {
                        let cb = thermometer@[b] as int;
                        if b == a {
                            assert(lookup@[cb]@[before[cb]@.len() as int] == id);
                        } else {
                            assert(before[cb]@.contains(id));
                            let p = choose|p: int| 0 <= p < before[cb]@.len() && before[cb]@[p] == id;
                            assert(lookup@[cb]@[p] == id);
                        }
                    }
                }
                a = a + 1;
            }
            proof {
                assert forall|c: int, k: int| 0 <= c < 81 && 0 <= k < id + 1 && #[trigger] thermo_has(ts[k], c)
                    implies lookup@[c]@.contains(k as usize) by {
                    if k == id {
                        let b = choose|b: int| 0 <= b < ts[k].len() && ts[k][b] == c;
                        assert(thermometer@[b] == c);
                    }
                }
            }
            id = id + 1;
        }
        ThermalSudoku { thermometers, lookup }
    }
}

impl SudokuRule for ThermalSudoku {
    open spec fn ok_at(&self, g: Seq<Option<Digit>>, i: int) -> bool {
        thermal_ok_at(self.lines(), g, i)
    }

    fn check_one(&self, board: &Board, index: usize) -> (r: bool) {
        proof {
            use_type_invariant(self);
        }
        let ids = &self.lookup[index];
        let ghost ts = self.lines();
        let count = self.thermometers.len();
        let mut p: usize = 0;
        while p < ids.len()
            invariant
                self.wf(),
                ts == self.lines(),
                count == ts.len(),
                index < 81,
                ids@ == self.lookup@[index as int]@,
                0 <= p <= ids@.len(),
                forall|q: int| 0 <= q < p ==> thermo_ok(ts[#[trigger] ids@[q] as int], board@),
            decreases ids@.len() - p,
        {
            let id = ids[p];
            assert(id < ts.len());
            let thermometer = &self.thermometers[id];
            assert(ts[id as int] == thermometer@);
            proof {
                assert forall|a: int| 0 <= a < thermometer@.len() implies #[trigger] thermometer@[a] < 81 by {
                    assert(ts[id as int][a] < 81);
                }
            }
            if !check_thermometer(thermometer, board) {
                assert(thermo_has(ts[id as int], index as int));
                return false;
            }
            p = p + 1;
        }
        proof {
            assert forall|k: int| 0 <= k < ts.len() && #[trigger] thermo_has(ts[k], index as int) implies thermo_ok(ts[k], board@) by {
                assert(ts.len() == self.thermometers@.len());
                assert(0 <= k <= usize::MAX);
                assert(ids@.contains(k as usize));
                let q = choose|q: int| 0 <= q < ids@.len() && ids@[q] == k as usize;
                assert(thermo_ok(ts[ids@[q] as int], board@));
            }
        }
        true
    }

    fn check(&self, board: &Board) -> (r: bool) {
        proof {
            use_type_invariant(self);
        }
        let ghost ts = self.lines();
        let mut k: usize = 0;
        while k < self.thermometers.len()
            invariant
                self.wf(),
                ts == self.lines(),
                0 <= k <= ts.len(),
                forall|l: int| 0 <= l < k ==> thermo_ok(#[trigger] ts[l], board@),
            decreases ts.len() - k,
        {
            let thermometer = &self.thermometers[k];
            assert(ts[k as int] == thermometer@);
            proof {
                assert forall|a: int| 0 <= a < thermometer@.len() implies #[trigger] thermometer@[a] < 81 by {
                    assert(ts[k as int][a] < 81);
                }
            }
            if !check_thermometer(thermometer, board) {
                proof {
                    assert(thermometer@.len() > 0);
                    let c = thermometer@[0] as int;
                    assert(thermo_has(ts[k as int], c));
                    assert(is_cell(c));
                    assert(!thermal_ok_at(ts, board@, c));
                    assert(!self.ok_at(board@, c));
                }
                return false;
            }
            k = k + 1;
        }
        true
    }
}

// ----- facts about single rules -----

/// Emptying cells cannot break a row.
proof fn lemma_row_mono(g1: Seq<Option<Digit>>, g2: Seq<Option<Digit>>, i: int)
    requires
        sub_grid(g1, g2),
        is_cell(i),
        row_ok_at(g2, i),
    ensures
        row_ok_at(g1, i),
{
    if g1[i] is Some {
        assert forall|j: int| is_cell(j) && j != i && row_of(j) == row_of(i) implies #[trigger] g1[j] != g1[i] by {
            if g1[j] is Some {
                assert(g2[j] == g1[j]);
            }
        }
    }
}

/// Emptying cells cannot break a column.
proof fn lemma_col_mono(g1: Seq<Option<Digit>>, g2: Seq<Option<Digit>>, i: int)
    requires
        sub_grid(g1, g2),
        is_cell(i),
        col_ok_at(g2, i),
    ensures
        col_ok_at(g1, i),
{
    if g1[i] is Some {
        assert forall|j: int| is_cell(j) && j != i && col_of(j) == col_of(i) implies #[trigger] g1[j] != g1[i] by {
            if g1[j] is Some {
                assert(g2[j] == g1[j]);
            }
        }
    }
}

/// Emptying cells cannot break a box.
proof fn lemma_box_mono(g1: Seq<Option<Digit>>, g2: Seq<Option<Digit>>, i: int)
    requires
        sub_grid(g1, g2),
        is_cell(i),
        box_ok_at(g2, i),
    ensures
        box_ok_at(g1, i),
{
    assert forall|j: int, k: int|
        is_cell(j) && is_cell(k) && j != k && box_of(j) == box_of(i) && box_of(k) == box_of(i)
            && g1[j] is Some implies #[trigger] g1[j] != #[trigger] g1[k] by {
        if g1[k] is Some {
            assert(g2[j] == g1[j]);
            assert(g2[k] == g1[k]);
        }
    }
}

/// Whether cells `i` and `j` are a knight's move apart: one and two steps,
/// or two and one, in column and row.
pub open spec fn knight_apart(i: int, j: int) -> bool {
    let dc = col_of(j) - col_of(i);
    let dr = row_of(j) - row_of(i);
    ||| (dc == 1 || dc == -1) && (dr == 2 || dr == -2)
    ||| (dc == 2 || dc == -2) && (dr == 1 || dr == -1)
}

/// The knight's move rule holds at a cell exactly when no cell a knight's
/// move away holds the same digit.
pub proof fn lemma_knight_rule(g: Seq<Option<Digit>>, i: int)
    requires
        is_cell(i),
    ensures
        knight_ok_at(g, i) <==> (g[i] is Some ==> forall|j: int| is_cell(j) && knight_apart(i, j) ==> #[trigger] g[j] != g[i]),
{
    lemma_cell_coords(i);
    let x = col_of(i);
    let y = row_of(i);
    if g[i] is Some {
        if knight_ok_at(g, i) {
            assert forall|j: int| is_cell(j) && knight_apart(i, j) implies #[trigger] g[j] != g[i] by {
                lemma_cell_coords(j);
                let dc = col_of(j) - x;
                let dr = row_of(j) - y;
                let k = if dc == -1 && dr == 2 { 0int } else if dc == -2 && dr == 1 { 1int } else if dc == -2 && dr == -1 {
                    2int
                } else if dc == -1 && dr == -2 { 3int } else if dc == 1 && dr == -2 { 4int } else if dc == 2 && dr == -1 {
                    5int
                } else if dc == 2 && dr == 1 { 6int } else { 7int };
                assert(knight_dx(k) == dc && knight_dy(k) == dr);
                assert(knight_on_grid(i, k));
                assert(knight_target(i, k) == j);
            }
        }
        if forall|j: int| is_cell(j) && knight_apart(i, j) ==> #[trigger] g[j] != g[i] {
            assert forall|k: int| 0 <= k < 8 && knight_on_grid(i, k) implies #[trigger] g[knight_target(i, k)] != g[i] by {
                let t = knight_target(i, k);
                lemma_coords_cell(x + knight_dx(k), y + knight_dy(k));
                assert(is_cell(t) && knight_apart(i, t));
            }
        }
    }
}

/// A knight's move on the grid can be undone by the opposite move.
proof fn lemma_knight_back(i: int, k: int)
    requires
        is_cell(i),
        0 <= k < 8,
        knight_on_grid(i, k),
    ensures
        is_cell(knight_target(i, k)),
        knight_on_grid(knight_target(i, k), if k < 4 { k + 4 } else { k - 4 }),
        knight_target(knight_target(i, k), if k < 4 { k + 4 } else { k - 4 }) == i,
{
    let x = col_of(i) + knight_dx(k);
    let y = row_of(i) + knight_dy(k);
    lemma_coords_cell(x, y);
    lemma_cell_coords(i);
}

/// Emptying cells cannot break the knight's move rule.
proof fn lemma_knight_mono(g1: Seq<Option<Digit>>, g2: Seq<Option<Digit>>, i: int)
    requires
        sub_grid(g1, g2),
        is_cell(i),
        knight_ok_at(g2, i),
    ensures
        knight_ok_at(g1, i),
{
    if g1[i] is Some {
        assert forall|k: int| 0 <= k < 8 && knight_on_grid(i, k) implies #[trigger] g1[knight_target(i, k)] != g1[i] by {
            lemma_knight_back(i, k);
            let t = knight_target(i, k);
            if g1[t] is Some {
                assert(g2[t] == g1[t]);
                assert(g2[knight_target(i, k)] != g2[i]);
            }
        }
    }
}

/// Emptying cells cannot break a thermometer.
proof fn lemma_thermo_mono(t: Seq<usize>, g1: Seq<Option<Digit>>, g2: Seq<Option<Digit>>)
    requires
        sub_grid(g1, g2),
        forall|a: int| 0 <= a < t.len() ==> #[trigger] t[a] < 81,
        thermo_ok(t, g2),
    ensures
        thermo_ok(t, g1),
{
    assert forall|a: int, b: int|
        0 <= a < b < t.len() && g1[t[a] as int] is Some && g1[t[b] as int] is Some implies
            #[trigger] g1[t[a] as int]->0.value() < #[trigger] g1[t[b] as int]->0.value() by {
        assert(g2[t[a] as int] == g1[t[a] as int]);
        assert(g2[t[b] as int] == g1[t[b] as int]);
    }
}

/// A thermometer that avoids the cell `j` does not see a change there.
proof fn lemma_thermo_frame(t: Seq<usize>, g: Seq<Option<Digit>>, j: int, v: Option<Digit>)
    requires
        g.len() == 81,
        is_cell(j),
        !thermo_has(t, j),
        forall|a: int| 0 <= a < t.len() ==> #[trigger] t[a] < 81,
    ensures
        thermo_ok(t, g.update(j, v)) == thermo_ok(t, g),
{
    assert forall|a: int| 0 <= a < t.len() implies #[trigger] g.update(j, v)[t[a] as int] == g[t[a] as int] by {
        assert(t[a] != j);
    }
    let g2 = g.update(j, v);
    if thermo_ok(t, g) {
        assert forall|a: int, b: int|
            0 <= a < b < t.len() && g2[t[a] as int] is Some && g2[t[b] as int] is Some implies
                #[trigger] g2[t[a] as int]->0.value() < #[trigger] g2[t[b] as int]->0.value() by {
            assert(g2[t[a] as int] == g[t[a] as int]);
            assert(g2[t[b] as int] == g[t[b] as int]);
        }
    }
    if thermo_ok(t, g2) {
        assert forall|a: int, b: int|
            0 <= a < b < t.len() && g[t[a] as int] is Some && g[t[b] as int] is Some implies
                #[trigger] g[t[a] as int]->0.value() < #[trigger] g[t[b] as int]->0.value() by {
            assert(g2[t[a] as int] == g[t[a] as int]);
            assert(g2[t[b] as int] == g[t[b] as int]);
        }
    }
}

/// Changing one cell keeps every row valid if it keeps the row at that cell valid.
proof fn lemma_row_local(g: Seq<Option<Digit>>, j: int, v: Option<Digit>, i: int)
    requires
        g.len() == 81,
        is_cell(j),
        is_cell(i),
        forall|c: int| is_cell(c) ==> #[trigger] row_ok_at(g, c),
        row_ok_at(g.update(j, v), j),
    ensures
        row_ok_at(g.update(j, v), i),
{
    let g2 = g.update(j, v);
    if i != j && g2[i] is Some {
        assert forall|k: int| is_cell(k) && k != i && row_of(k) == row_of(i) implies #[trigger] g2[k] != g2[i] by {
            if k == j {
                assert(g2[i] != g2[j]);
            } else {
                assert(row_ok_at(g, i));
                assert(g[k] != g[i]);
            }
        }
    }
}

/// Changing one cell keeps every column valid if it keeps the column at that cell valid.
proof fn lemma_col_local(g: Seq<Option<Digit>>, j: int, v: Option<Digit>, i: int)
    requires
        g.len() == 81,
        is_cell(j),
        is_cell(i),
        forall|c: int| is_cell(c) ==> #[trigger] col_ok_at(g, c),
        col_ok_at(g.update(j, v), j),
    ensures
        col_ok_at(g.update(j, v), i),
{
    let g2 = g.update(j, v);
    if i != j && g2[i] is Some {
        assert forall|k: int| is_cell(k) && k != i && col_of(k) == col_of(i) implies #[trigger] g2[k] != g2[i] by {
            if k == j {
                assert(g2[i] != g2[j]);
            } else {
                assert(col_ok_at(g, i));
                assert(g[k] != g[i]);
            }
        }
    }
}

/// Changing one cell keeps every box valid if it keeps the box of that cell valid.
proof fn lemma_box_local(g: Seq<Option<Digit>>, j: int, v: Option<Digit>, i: int)
    requires
        g.len() == 81,
        is_cell(j),
        is_cell(i),
        forall|c: int| is_cell(c) ==> #[trigger] box_ok_at(g, c),
        box_ok_at(g.update(j, v), j),
    ensures
        box_ok_at(g.update(j, v), i),
{
    let g2 = g.update(j, v);
    if box_of(i) != box_of(j) {
        assert(box_ok_at(g, i));
        assert forall|a: int, b: int|
            is_cell(a) && is_cell(b) && a != b && box_of(a) == box_of(i) && box_of(b) == box_of(i)
                && g2[a] is Some implies #[trigger] g2[a] != #[trigger] g2[b] by {
            assert(g2[a] == g[a]);
            assert(g2[b] == g[b]);
        }
    }
}

/// Changing one cell keeps the knight's move rule everywhere if it keeps it at that cell.
proof fn lemma_knight_local(g: Seq<Option<Digit>>, j: int, v: Option<Digit>, i: int)
    requires
        g.len() == 81,
        is_cell(j),
        is_cell(i),
        forall|c: int| is_cell(c) ==> #[trigger] knight_ok_at(g, c),
        knight_ok_at(g.update(j, v), j),
    ensures
        knight_ok_at(g.update(j, v), i),
{
    let g2 = g.update(j, v);
    if i != j && g2[i] is Some {
        assert forall|k: int| 0 <= k < 8 && knight_on_grid(i, k) implies #[trigger] g2[knight_target(i, k)] != g2[i] by {
            lemma_knight_back(i, k);
            let t = knight_target(i, k);
            if t == j {
                let kb = if k < 4 { k + 4 } else { k - 4 };
                assert(g2[knight_target(j, kb)] != g2[j]);
            } else {
                assert(knight_ok_at(g, i));
                assert(g[knight_target(i, k)] != g[i]);
            }
        }
    }
}

/// Changing one cell keeps every thermometer valid if it keeps those through that cell valid.
proof fn lemma_thermal_local(ts: Seq<Seq<usize>>, g: Seq<Option<Digit>>, j: int, v: Option<Digit>, i: int)
    requires
        g.len() == 81,
        lines_on_grid(ts),
        is_cell(j),
        is_cell(i),
        forall|c: int| is_cell(c) ==> #[trigger] thermal_ok_at(ts, g, c),
        thermal_ok_at(ts, g.update(j, v), j),
    ensures
        thermal_ok_at(ts, g.update(j, v), i),
{
    assert forall|k: int| 0 <= k < ts.len() && #[trigger] thermo_has(ts[k], i) implies thermo_ok(ts[k], g.update(j, v)) by {
        if !thermo_has(ts[k], j) {
            assert(thermal_ok_at(ts, g, i));
            assert forall|a: int| 0 <= a < ts[k].len() implies #[trigger] ts[k][a] < 81 by {
            }
            lemma_thermo_frame(ts[k], g, j, v);
        }
    }
}

/// Rows, columns and boxes, and nothing else.
pub closed spec fn standard_rules() -> Rules {
    Rules { rows: Some(SudokuRow), cols: Some(SudokuColumn), boxes: Some(SudokuBox), knight: None, thermal: None }
}

/// The standard rules are rows, columns and boxes without thermometers.
pub proof fn lemma_standard_rules()
    ensures
        standard_rules().wf(),
        standard_rules().rows_on(),
        standard_rules().cols_on(),
        standard_rules().boxes_on(),
        !standard_rules().knight_on(),
        standard_rules().lines() == Seq::<Seq<usize>>::empty(),
{
}

/// The rules a game is played by; each rule may be switched off.
pub struct Rules {
    rows: Option<SudokuRow>,
    cols: Option<SudokuColumn>,
    boxes: Option<SudokuBox>,
    knight: Option<KnightsMove>,
    thermal: Option<ThermalSudoku>,
}

impl Rules {
    /// Whether digits may not repeat within a row.
    pub closed spec fn rows_on(&self) -> bool {
        self.rows is Some
    }

    /// Whether digits may not repeat within a column.
    pub closed spec fn cols_on(&self) -> bool {
        self.cols is Some
    }

    /// Whether digits may not repeat within a box.
    pub closed spec fn boxes_on(&self) -> bool {
        self.boxes is Some
    }

    /// Whether digits may not repeat a knight's move apart.
    pub closed spec fn knight_on(&self) -> bool {
        self.knight is Some
    }

    /// The thermometers (none when the rule is off).
    pub closed spec fn lines(&self) -> Seq<Seq<usize>> {
        match self.thermal {
            Some(t) => t.lines(),
            None => Seq::empty(),
        }
    }

    /// The rules' data is consistent.
    #[verifier::type_invariant]
    pub closed spec fn wf(&self) -> bool {
        match self.thermal {
            Some(t) => t.wf(),
            None => true,
        }
    }

    /// Whether every rule holds at the cell `i` of `g`.
    pub open spec fn ok_at(&self, g: Seq<Option<Digit>>, i: int) -> bool {
        &&& self.rows_on() ==> row_ok_at(g, i)
        &&& self.cols_on() ==> col_ok_at(g, i)
        &&& self.boxes_on() ==> box_ok_at(g, i)
        &&& self.knight_on() ==> knight_ok_at(g, i)
        &&& thermal_ok_at(self.lines(), g, i)
    }

    /// Whether every rule holds at every cell of `g`.
    pub open spec fn ok(&self, g: Seq<Option<Digit>>) -> bool {
        forall|i: int| is_cell(i) ==> #[trigger] self.ok_at(g, i)
    }

    /// Well-formed rules keep their thermometers on the grid.
    pub proof fn lemma_wf(&self)
        requires
            self.wf(),
        ensures
            lines_on_grid(self.lines()),
    {
    }

    /// Whether the whole board obeys every rule.
    pub fn check(&self, board: &Board) -> (r: bool)
        ensures
            r == self.ok(board@),
            self.wf(),
    {
        proof {
            use_type_invariant(self);
        }
        let ok_rows = match &self.rows {
            Some(x) => x.check(board),
            None => true,
        };
        let ok_cols = ok_rows && match &self.cols {
            Some(x) => x.check(board),
            None => true,
        };
        let ok_boxes = ok_cols && match &self.boxes {
            Some(x) => x.check(board),
            None => true,
        };
        let ok_knight = ok_boxes && match &self.knight {
            Some(x) => x.check(board),
            None => true,
        };
        let ok_all = ok_knight && match &self.thermal {
            Some(x) => x.check(board),
            None => true,
        };
        proof {
            if ok_all {
                assert forall|i: int| is_cell(i) implies #[trigger] self.ok_at(board@, i) by {
                    if self.rows_on() {
                        assert(self.rows->0.ok_at(board@, i));
                    }
                    if self.cols_on() {
                        assert(self.cols->0.ok_at(board@, i));
                    }
                    if self.boxes_on() {
                        assert(self.boxes->0.ok_at(board@, i));
                    }
                    if self.knight_on() {
                        assert(self.knight->0.ok_at(board@, i));
                    }
                    if self.thermal is Some {
                        assert(self.thermal->0.ok_at(board@, i));
                    }
                }
            }
            if !ok_all {
                if !ok_rows {
                    let i = choose|i: int| is_cell(i) && !row_ok_at(board@, i);
                    assert(!self.ok_at(board@, i));
                } else if !ok_cols {
                    let i = choose|i: int| is_cell(i) && !col_ok_at(board@, i);
                    assert(!self.ok_at(board@, i));
                } else if !ok_boxes {
                    let i = choose|i: int| is_cell(i) && !box_ok_at(board@, i);
                    assert(!self.ok_at(board@, i));
                } else if !ok_knight {
                    let i = choose|i: int| is_cell(i) && !knight_ok_at(board@, i);
                    assert(!self.ok_at(board@, i));
                } else {
                    let i = choose|i: int| is_cell(i) && !thermal_ok_at(self.lines(), board@, i);
                    assert(!self.ok_at(board@, i));
                }
            }
        }
        ok_all
    }

    /// Whether every rule holds at the cell `index`.
    pub fn check_one(&self, board: &Board, index: usize) -> (r: bool)
        requires
            index < 81,
        ensures
            r == self.ok_at(board@, index as int),
            self.wf(),
    {
        proof {
            use_type_invariant(self);
        }
        let ok_rows = match &self.rows {
            Some(x) => x.check_one(board, index),
            None => true,
        };
        let ok_cols = ok_rows && match &self.cols {
            Some(x) => x.check_one(board, index),
            None => true,
        };
        let ok_boxes = ok_cols && match &self.boxes {
            Some(x) => x.check_one(board, index),
            None => true,
        };
        let ok_knight = ok_boxes && match &self.knight {
            Some(x) => x.check_one(board, index),
            None => true,
        };
        ok_knight && match &self.thermal {
            Some(x) => x.check_one(board, index),
            None => true,
        }
    }
}

impl Rules {
    /// The rules a description asks for.
    pub fn from(description: RulesDescription) -> (r: Rules)
        requires
            lines_on_grid(lines_view(description.thermometers@)),
        ensures
            r.wf(),
            r.rows_on() == description.rows,
            r.cols_on() == description.cols,
            r.boxes_on() == description.boxes,
            r.knight_on() == description.knight,
            r.lines() == lines_view(description.thermometers@),
            description.rows && description.cols && description.boxes && !description.knight
                && description.thermometers@.len() == 0 ==> r == standard_rules(),
    {
        let RulesDescription { rows, cols, boxes, knight, thermometers } = description;
        let thermal = if thermometers.len() == 0 {
            assert(lines_view(thermometers@) =~= Seq::empty());
            None
        } else {
            Some(ThermalSudoku::new(thermometers))
        };
        Rules {
            rows: if rows { Some(SudokuRow) } else { None },
            cols: if cols { Some(SudokuColumn) } else { None },
            boxes: if boxes { Some(SudokuBox) } else { None },
            knight: if knight { Some(KnightsMove) } else { None },
            thermal,
        }
    }

    /// Rows, columns and boxes.
    pub fn standard_sudoku_rules() -> (r: Rules)
        ensures
            r == standard_rules(),
            r.wf(),
            r.rows_on(),
            r.cols_on(),
            r.boxes_on(),
            !r.knight_on(),
            r.lines() == Seq::<Seq<usize>>::empty(),
    {
        let d = RulesDescription::standard_sudoku_rules();
        assert(lines_view(d.thermometers@) =~= Seq::empty());
        Self::from(d)
    }
}

/// Rows, columns and boxes.
pub fn standard_sudoku_rules() -> (r: Rules)
    ensures
        r == standard_rules(),
{
    Rules::standard_sudoku_rules()
}

/// Emptying cells never breaks a rule at a cell: if `g1` keeps only some of
/// the digits of `g2`, each rule that holds at a cell of `g2` holds there in `g1`.
pub proof fn lemma_rules_monotone(rules: &Rules, g1: Seq<Option<Digit>>, g2: Seq<Option<Digit>>, i: int)
    requires
        rules.wf(),
        g1.len() == 81,
        g2.len() == 81,
        sub_grid(g1, g2),
        is_cell(i),
        rules.ok_at(g2, i),
    ensures
        rules.ok_at(g1, i),
{
    if rules.rows_on() {
        lemma_row_mono(g1, g2, i);
    }
    if rules.cols_on() {
        lemma_col_mono(g1, g2, i);
    }
    if rules.boxes_on() {
        lemma_box_mono(g1, g2, i);
    }
    if rules.knight_on() {
        lemma_knight_mono(g1, g2, i);
    }
    let ts = rules.lines();
    assert forall|k: int| 0 <= k < ts.len() && #[trigger] thermo_has(ts[k], i) implies thermo_ok(ts[k], g1) by {
        assert forall|a: int| 0 <= a < ts[k].len() implies #[trigger] ts[k][a] < 81 by {
        }
        lemma_thermo_mono(ts[k], g1, g2);
    }
}

/// Emptying cells keeps a valid grid valid.
pub proof fn lemma_rules_ok_monotone(rules: &Rules, g1: Seq<Option<Digit>>, g2: Seq<Option<Digit>>)
    requires
        rules.wf(),
        g1.len() == 81,
        g2.len() == 81,
        sub_grid(g1, g2),
        rules.ok(g2),
    ensures
        rules.ok(g1),
{
    assert forall|i: int| is_cell(i) implies #[trigger] rules.ok_at(g1, i) by {
        lemma_rules_monotone(rules, g1, g2, i);
    }
}

/// Changing one cell of a valid grid gives a valid grid exactly when the rules
/// hold at the changed cell.
pub proof fn lemma_rules_local(rules: &Rules, g: Seq<Option<Digit>>, j: int, v: Option<Digit>)
    requires
        rules.wf(),
        g.len() == 81,
        is_cell(j),
        rules.ok(g),
    ensures
        rules.ok(g.update(j, v)) == rules.ok_at(g.update(j, v), j),
{
    let g2 = g.update(j, v);
    if rules.ok_at(g2, j) {
        assert forall|i: int| is_cell(i) implies #[trigger] rules.ok_at(g2, i) by {
            if rules.rows_on() {
                assert forall|c: int| is_cell(c) implies #[trigger] row_ok_at(g, c) by {
                    assert(rules.ok_at(g, c));
                }
                lemma_row_local(g, j, v, i);
            }
            if rules.cols_on() {
                assert forall|c: int| is_cell(c) implies #[trigger] col_ok_at(g, c) by {
                    assert(rules.ok_at(g, c));
                }
                lemma_col_local(g, j, v, i);
            }
            if rules.boxes_on() {
                assert forall|c: int| is_cell(c) implies #[trigger] box_ok_at(g, c) by {
                    assert(rules.ok_at(g, c));
                }
                lemma_box_local(g, j, v, i);
            }
            if rules.knight_on() {
                assert forall|c: int| is_cell(c) implies #[trigger] knight_ok_at(g, c) by {
                    assert(rules.ok_at(g, c));
                }
                lemma_knight_local(g, j, v, i);
            }
            assert forall|c: int| is_cell(c) implies #[trigger] thermal_ok_at(rules.lines(), g, c) by {
                assert(rules.ok_at(g, c));
            }
            lemma_thermal_local(rules.lines(), g, j, v, i);
        }
    }
}

} // verus!
