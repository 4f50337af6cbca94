use vstd::prelude::*;

verus! {

/// One of the nine Sudoku digits.
#[derive(Debug, Clone, Copy, PartialEq, Eq, Hash, Structural)]
pub enum Digit {
    _1,
    _2,
    _3,
    _4,
    _5,
    _6,
    _7,
    _8,
    _9,
}

impl Digit {
    /// The number the digit stands for, from 1 to 9.
    pub open spec fn value(self) -> nat {
        match self {
            Digit::_1 => 1,
            Digit::_2 => 2,
            Digit::_3 => 3,
            Digit::_4 => 4,
            Digit::_5 => 5,
            Digit::_6 => 6,
            Digit::_7 => 7,
            Digit::_8 => 8,
            Digit::_9 => 9,
        }
    }

    /// The digit standing for `v`, where `1 <= v <= 9`.
    pub open spec fn of_value(v: int) -> Option<Digit> {
        if v == 1 {
            Some(Digit::_1)
        } else if v == 2 {
            Some(Digit::_2)
        } else if v == 3 {
            Some(Digit::_3)
        } else if v == 4 {
            Some(Digit::_4)
        } else if v == 5 {
            Some(Digit::_5)
        } else if v == 6 {
            Some(Digit::_6)
        } else if v == 7 {
            Some(Digit::_7)
        } else if v == 8 {
            Some(Digit::_8)
        } else if v == 9 {
            Some(Digit::_9)
        } else {
            None
        }
    }

    pub const MAX_DIGIT: Digit = Digit::_9;

    /// Size of an array indexed by digit values (index 0 is unused).
    pub const ARRAY_SIZE: usize = 10;

    /// The digit's value as an index into an array of `ARRAY_SIZE` entries.
    pub fn index(self) -> (r: usize)
        ensures
            r == self.value(),
            1 <= r <= 9,
    {
        match self {
            Digit::_1 => 1,
            Digit::_2 => 2,
            Digit::_3 => 3,
            Digit::_4 => 4,
            Digit::_5 => 5,
            Digit::_6 => 6,
            Digit::_7 => 7,
            Digit::_8 => 8,
            Digit::_9 => 9,
        }
    }

    /// The digit for `value`, or `None` when `value` is not in `1..=9`.
    pub fn from_u32(value: u32) -> (r: Option<Digit>)
        ensures
            r == Digit::of_value(value as int),
    {
        match value {
            1 => Some(Digit::_1),
            2 => Some(Digit::_2),
            3 => Some(Digit::_3),
            4 => Some(Digit::_4),
            5 => Some(Digit::_5),
            6 => Some(Digit::_6),
            7 => Some(Digit::_7),
            8 => Some(Digit::_8),
            9 => Some(Digit::_9),
            _ => None,
        }
    }

    /// The next digit, wrapping from 9 around to 1.
    pub fn shift(self) -> (r: Digit)
        ensures
            r.value() == (if self.value() == 9 { 1 } else { self.value() + 1 }),
    {
        match self {
            Digit::_1 => Digit::_2,
            Digit::_2 => Digit::_3,
            Digit::_3 => Digit::_4,
            Digit::_4 => Digit::_5,
            Digit::_5 => Digit::_6,
            Digit::_6 => Digit::_7,
            Digit::_7 => Digit::_8,
            Digit::_8 => Digit::_9,
            Digit::_9 => Digit::_1,
        }
    }

    /// The next digit, or `None` after 9.
    pub fn next(self) -> (r: Option<Digit>)
        ensures
            r == Digit::of_value(self.value() + 1int),
            r is Some ==> r->0.value() == self.value() + 1,
            r is None <==> self.value() == 9,
    {
        match self {
            Digit::_1 => Some(Digit::_2),
            Digit::_2 => Some(Digit::_3),
            Digit::_3 => Some(Digit::_4),
            Digit::_4 => Some(Digit::_5),
            Digit::_5 => Some(Digit::_6),
            Digit::_6 => Some(Digit::_7),
            Digit::_7 => Some(Digit::_8),
            Digit::_8 => Some(Digit::_9),
            Digit::_9 => None,
        }
    }
}

/// Every digit is the digit of its value, and distinct digits have distinct values.
pub proof fn lemma_digit_value(d: Digit)
    ensures
        1 <= d.value() <= 9,
        Digit::of_value(d.value() as int) == Some(d),
{
}

/// A value in `1..=9` names a digit of that value.
pub proof fn lemma_of_value(v: int)
    ensures
        (1 <= v <= 9) <==> Digit::of_value(v) is Some,
        Digit::of_value(v) is Some ==> Digit::of_value(v)->0.value() == v,
{
}

impl TryFrom<u32> for Digit {
    type Error = ();

    fn try_from(value: u32) -> (r: Result<Digit, ()>) {
        match Digit::from_u32(value) {
            Some(d) => Ok(d),
            None => Err(()),
        }
    }
}

impl vstd::std_specs::convert::TryFromSpecImpl<u32> for Digit {
    open spec fn obeys_try_from_spec() -> bool {
        true
    }

    open spec fn try_from_spec(v: u32) -> Result<Digit, ()> {
        match Digit::of_value(v as int) {
            Some(d) => Ok(d),
            None => Err(()),
        }
    }
}

impl From<Digit> for u32 {
    fn from(val: Digit) -> (r: u32) {
        val.index() as u32
    }
}

impl vstd::std_specs::convert::FromSpecImpl<Digit> for u32 {
    open spec fn obeys_from_spec() -> bool {
        true
    }

    open spec fn from_spec(v: Digit) -> u32 {
        v.value() as u32
    }
}


/// Number of `true` entries of a sequence.
pub open spec fn count_true(s: Seq<bool>) -> nat
    decreases s.len(),
{
    if s.len() == 0 {
        0
    } else {
        count_true(s.drop_last()) + if s.last() {
            1nat
        } else {
            0nat
        }
    }
}

/// A set of digits.
#[derive(Clone, Copy)]
pub struct DigitSet {
    storage: [bool; 10],
}

impl View for DigitSet {
    /// Entry `k` tells whether the digit of value `k + 1` is in the set.
    type V = Seq<bool>;

    closed spec fn view(&self) -> Seq<bool> {
        Seq::new(9, |k: int| self.storage@[k + 1])
    }
}

impl DigitSet {
    /// Whether `d` is in the set.
    pub open spec fn has(&self, d: Digit) -> bool {
        self@[d.value() - 1]
    }

    proof fn lemma_view(&self)
        ensures
            self@.len() == 9,
            forall|k: int| 0 <= k < 9 ==> #[trigger] self@[k] == self.storage@[k + 1],
    {
    }

    /// A set's view has one entry per digit.
    pub proof fn lemma_len(&self)
        ensures
            self@.len() == 9,
    {
    }

    /// The empty set.
    pub fn new() -> (r: Self)
        ensures
            r@ == Seq::new(9, |k: int| false),
    {
        let r = DigitSet { storage: [false; 10] };
        assert(r@ =~= Seq::new(9, |k: int| false));
        r
    }

    /// Adds `digit`.
    pub fn set(&mut self, digit: Digit)
        ensures
            final(self)@ == old(self)@.update(digit.value() - 1, true),
    {
        let k = digit.index();
        self.storage[k] = true;
        assert(final(self)@ =~= old(self)@.update(digit.value() - 1, true));
    }

    /// Removes `digit`.
    pub fn clear(&mut self, digit: Digit)
        ensures
            final(self)@ == old(self)@.update(digit.value() - 1, false),
    {
        let k = digit.index();
        self.storage[k] = false;
        assert(final(self)@ =~= old(self)@.update(digit.value() - 1, false));
    }

    /// Whether `digit` is in the set.
    pub fn get(&self, digit: Digit) -> (r: bool)
        ensures
            r == self.has(digit),
    {
        self.storage[digit.index()]
    }

    /// Replaces the set by its complement.
    pub fn invert(&mut self)
        ensures
            final(self)@ == Seq::new(9, |k: int| !old(self)@[k]),
    {
        let mut i: usize = 0;
        while i < 10
            invariant
                0 <= i <= 10,
                forall|k: int| 0 <= k < i ==> self.storage@[k] == !old(self).storage@[k],
                forall|k: int| i <= k < 10 ==> self.storage@[k] == old(self).storage@[k],
            decreases 10 - i,
        {
            self.storage[i] = !self.storage[i];
            i = i + 1;
        }
        assert(self@ =~= Seq::new(9, |k: int| !old(self)@[k]));
    }

    /// Number of digits in the set.
    pub fn count(&self) -> (r: usize)
        ensures
            r == count_true(self@),
            r <= 9,
    {
        let mut count: usize = 0;
        let mut k: usize = 1;
        while k < 10
            invariant
                1 <= k <= 10,
                count == count_true(self@.subrange(0, k - 1)),
                count <= k - 1,
            decreases 10 - k,
        {
            assert(self@.subrange(0, k as int).drop_last() =~= self@.subrange(0, k - 1));
            if self.storage[k] {
                count = count + 1;
            }
            k = k + 1;
        }
        assert(self@.subrange(0, 9) =~= self@);
        count
    }

    /// The smallest digit in the set.
    pub fn first(&self) -> (r: Option<Digit>)
        ensures
            r is Some ==> self.has(r->0) && forall|e: Digit| e.value() < r->0.value() ==> !self.has(e),
            r is None ==> forall|e: Digit| !self.has(e),
    {
        let mut k: u32 = 1;
        while k < 10
            invariant
                1 <= k <= 10,
                forall|e: Digit| e.value() < k ==> !self.has(e),
            decreases 10 - k,
        {
            if self.storage[k as usize] {
                let d = Digit::from_u32(k);
                proof {
                    lemma_of_value(k as int);
                }
                return d;
            }
            k = k + 1;
        }
        None
    }

    /// Adds every digit of `other`.
    pub fn union(&mut self, other: &Self)
        ensures
            final(self)@ == Seq::new(9, |k: int| old(self)@[k] || other@[k]),
    {
        let ghost start = self.storage@;
        let mut k: usize = 1;
        while k < 10
            invariant
                1 <= k <= 10,
                self.storage@.len() == 10,
                start.len() == 10,
                forall|j: int| 0 <= j < 10 ==> #[trigger] self.storage@[j] == if 1 <= j < k {
                    start[j] || other.storage@[j]
                } else {
                    start[j]
                },
            decreases 10 - k,
        {
            if other.storage[k] {
                self.storage[k] = true;
            }
            k = k + 1;
        }
        proof {
            assert(start == old(self).storage@);
            old(self).lemma_view();
            other.lemma_view();
            self.lemma_view();
        }
        assert(self@ =~= Seq::new(9, |k: int| old(self)@[k] || other@[k]));
    }

    /// Whether both sets hold the same digits.
    pub fn same_digits(&self, other: &Self) -> (r: bool)
        ensures
            r == (self@ == other@),
    {
        let mut k: usize = 1;
        while k < 10
            invariant
                1 <= k <= 10,
                forall|j: int| 1 <= j < k ==> self.storage@[j] == other.storage@[j],
            decreases 10 - k,
        {
            if self.storage[k] != other.storage[k] {
                assert(self@[k - 1] != other@[k - 1]);
                return false;
            }
            k = k + 1;
        }
        assert(self@ =~= other@);
        true
    }
}

impl Default for DigitSet {
    fn default() -> (r: Self)
        ensures
            r@ == Seq::new(9, |k: int| false),
    {
        DigitSet::new()
    }
}

impl PartialEq for DigitSet {
    fn eq(&self, other: &Self) -> (r: bool) {
        self.same_digits(other)
    }
}

impl vstd::std_specs::cmp::PartialEqSpecImpl for DigitSet {
    open spec fn obeys_eq_spec() -> bool {
        true
    }

    open spec fn eq_spec(&self, other: &Self) -> bool {
        self@ == other@
    }
}


/// Column of the cell at `i` on the nine-by-nine grid.
pub open spec fn col_of(i: int) -> int {
    i % 9
}

/// Row of the cell at `i` on the nine-by-nine grid.
pub open spec fn row_of(i: int) -> int {
    i / 9
}

/// Whether `i` names a cell of the grid.
pub open spec fn is_cell(i: int) -> bool {
    0 <= i < 81
}

/// A nine-by-nine Sudoku board, stored row by row; `None` marks an empty cell.
#[derive(Debug, Clone, Copy, PartialEq, Eq, Hash)]
pub struct Board {
    pub board: [Option<Digit>; 81],
}

impl View for Board {
    type V = Seq<Option<Digit>>;

    open spec fn view(&self) -> Seq<Option<Digit>> {
        self.board@
    }
}

/// Whether `g` has an empty cell.
pub open spec fn has_gap(g: Seq<Option<Digit>>) -> bool {
    exists|i: int| is_cell(i) && #[trigger] g[i] is None
}

impl Default for Board {
    fn default() -> (r: Self)
        ensures
            forall|i: int| is_cell(i) ==> #[trigger] r@[i] is None,
    {
        Board { board: [None; 81] }
    }
}

impl Board {
    pub const HEIGHT: usize = 9;

    pub const WIDTH: usize = 9;

    /// Length of a board's cell sequence.
    pub proof fn lemma_len(&self)
        ensures
            self@.len() == 81,
    {
    }

    /// Builds a board from numbers given row by row; `1..=9` are digits, any
    /// other number leaves the cell empty.
    pub fn make(board: [u32; 81]) -> (r: Self)
        ensures
            forall|i: int| is_cell(i) ==> #[trigger] r@[i] == Digit::of_value(board@[i] as int),
    {
        let mut cells: [Option<Digit>; 81] = [None; 81];
        let mut i: usize = 0;
        while i < 81
            invariant
                0 <= i <= 81,
                forall|j: int| 0 <= j < i ==> #[trigger] cells@[j] == Digit::of_value(board@[j] as int),
            decreases 81 - i,
        {
            cells[i] = Digit::from_u32(board[i]);
            i = i + 1;
        }
        Board { board: cells }
    }

    /// Number of cells.
    pub fn len(&self) -> (r: usize)
        ensures
            r == 81,
            r == self@.len(),
    {
        81
    }

    pub fn height(&self) -> (r: usize)
        ensures
            r == 9,
    {
        Self::HEIGHT
    }

    pub fn width(&self) -> (r: usize)
        ensures
            r == 9,
    {
        Self::WIDTH
    }

    /// The first empty cell.
    pub fn first_open_index(&self) -> (r: Option<usize>)
        ensures
            r is Some ==> is_cell(r->0 as int) && self@[r->0 as int] is None && forall|j: int|
                0 <= j < r->0 ==> #[trigger] self@[j] is Some,
            r is None ==> !has_gap(self@),
    {
        let mut i: usize = 0;
        while i < 81
            invariant
                0 <= i <= 81,
                forall|j: int| 0 <= j < i ==> #[trigger] self@[j] is Some,
            decreases 81 - i,
        {
            if self.board[i].is_none() {
                return Some(i);
            }
            i = i + 1;
        }
        None
    }

    /// The first empty cell after `after`.
    pub fn next_open_index(&self, after: usize) -> (r: Option<usize>)
        requires
            after < usize::MAX,
        ensures
            r is Some ==> after < r->0 && is_cell(r->0 as int) && self@[r->0 as int] is None
                && forall|j: int| after < j < r->0 ==> #[trigger] self@[j] is Some,
            r is None ==> forall|j: int| after < j < 81 ==> #[trigger] self@[j] is Some,
    {
        let mut i: usize = after + 1;
        while i < 81
            invariant
                after < i,
                forall|j: int| after < j < i && j < 81 ==> #[trigger] self@[j] is Some,
            decreases 81 - i,
        {
            if self.board[i].is_none() {
                return Some(i);
            }
            i = i + 1;
        }
        None
    }

    pub fn in_bounds(&self, x: usize, y: usize) -> (r: bool)
        ensures
            r == (x < 9 && y < 9),
    {
        x < Self::WIDTH && y < Self::HEIGHT
    }

    /// The cell index of column `x`, row `y`.
    pub fn index(&self, x: usize, y: usize) -> (r: usize)
        requires
            x < 9,
            y < 9,
        ensures
            r == y * 9 + x,
            is_cell(r as int),
            col_of(r as int) == x,
            row_of(r as int) == y,
    {
        y * Self::WIDTH + x
    }

    /// Column and row of the cell at `index`.
    pub fn xy(&self, index: usize) -> (r: (usize, usize))
        requires
            index < 81,
        ensures
            r.0 == col_of(index as int),
            r.1 == row_of(index as int),
            r.0 < 9,
            r.1 < 9,
            r.1 * 9 + r.0 == index,
    {
        (index % Self::WIDTH, index / Self::WIDTH)
    }

    /// The digit at column `x`, row `y`.
    pub fn get(&self, x: usize, y: usize) -> (r: Option<Digit>)
        requires
            x < 9,
            y < 9,
        ensures
            r == self@[y * 9 + x],
    {
        self.board[self.index(x, y)]
    }

    /// Writes `digit` at column `x`, row `y`.
    pub fn set(&mut self, x: usize, y: usize, digit: Digit)
        requires
            x < 9,
            y < 9,
        ensures
            final(self)@ == old(self)@.update(y * 9 + x, Some(digit)),
    {
        let i = self.index(x, y);
        self.board[i] = Some(digit);
    }

    /// Empties the cell at column `x`, row `y`.
    pub fn reset(&mut self, x: usize, y: usize)
        requires
            x < 9,
            y < 9,
        ensures
            final(self)@ == old(self)@.update(y * 9 + x, None),
    {
        let i = self.index(x, y);
        self.board[i] = None;
    }

    /// Whether some cell is empty.
    pub fn has_gaps(&self) -> (r: bool)
        ensures
            r == has_gap(self@),
    {
        let mut i: usize = 0;
        while i < 81
            invariant
                0 <= i <= 81,
                forall|j: int| 0 <= j < i ==> #[trigger] self@[j] is Some,
            decreases 81 - i,
        {
            if self.board[i].is_none() {
                return true;
            }
            i = i + 1;
        }
        false
    }
}

} // verus!
