//! The grid: 81 cells in row-major order, each with a placed value and the
//! set of digits still considered possible for it.
use vstd::prelude::*;

use crate::model::{
    consistent, filled, has_guess, is_cell, no_guesses, values_of, is_digit, is_solution, is_solution_of, guesses_sound, peers, CELLS,
};

verus! {

/// One cell: `value` is 0 while the cell is blank, else the digit placed in
/// it; `guesses[d - 1]` says whether digit `d` is still a candidate.
#[derive(Clone, Copy)]
pub struct SudokuCell {
    pub value: u8,
    pub guesses: [bool; 9],
}

/// Why a grid could not be built from rows of symbols.
#[derive(Debug, Clone, Copy, PartialEq, Eq, Structural)]
pub enum FormatError {
    /// There are not exactly nine rows, or a row does not hold nine symbols.
    WrongShape,
    /// The row and column of the first symbol, in row-major order, that is neither a digit nor the
    /// blank `'0'`.
    BadSymbol(usize, usize),
}

pub open spec fn is_symbol(c: char) -> bool {
    '0' <= c <= '9'
}

pub open spec fn symbol_value(c: char) -> u8 {
    (c as u32 - '0' as u32) as u8
}

pub open spec fn symbol_of(v: u8) -> char {
    (v + 48) as char
}

pub open spec fn well_shaped(rows: Seq<Seq<char>>) -> bool {
    rows.len() == 9 && forall|r: int| 0 <= r < 9 ==> #[trigger] rows[r].len() == 9
}

pub open spec fn all_symbols(rows: Seq<Seq<char>>) -> bool {
    forall|r: int, c: int| 0 <= r < 9 && 0 <= c < 9 ==> is_symbol(#[trigger] rows[r][c])
}

/// The placed values that rows of symbols describe, row-major.
pub open spec fn values_of_rows(rows: Seq<Seq<char>>) -> Seq<u8> {
    Seq::new(81, |i: int| symbol_value(rows[i / 9][i % 9]))
}

/// The rows of symbols that describe the given placed values.
pub open spec fn rows_of_values(v: Seq<u8>) -> Seq<Seq<char>> {
    Seq::new(9, |r: int| Seq::new(9, |c: int| symbol_of(v[r * 9 + c])))
}

/// The symbols of rows given as vectors.
pub open spec fn symbols_of(rows: Seq<Vec<char>>) -> Seq<Seq<char>> {
    rows.map_values(|row: Vec<char>| row@)
}

/// `(row, col)` holds the first symbol, in row-major order, that is neither a
/// digit nor the blank.
pub open spec fn first_bad_symbol(rows: Seq<Seq<char>>, row: int, col: int) -> bool {
    &&& well_shaped(rows)
    &&& 0 <= row < 9
    &&& 0 <= col < 9
    &&& !is_symbol(rows[row][col])
    &&& forall|r: int, c: int|
        0 <= r < 9 && 0 <= c < 9 && r * 9 + c < row * 9 + col ==> is_symbol(#[trigger] rows[r][c])
}

pub open spec fn full_guesses(c: SudokuCell) -> bool {
    forall|d: int| is_digit(d) ==> #[trigger] has_guess(c, d)
}

/// Building a grid from rows that hold only digits and blanks, then rendering
/// it, gives the same rows back.
pub proof fn lemma_round_trip(rows: Seq<Seq<char>>)
    requires
        well_shaped(rows),
        all_symbols(rows),
    ensures
        rows_of_values(values_of_rows(rows)) == rows,
{
    let back = rows_of_values(values_of_rows(rows));
    assert forall|r: int| 0 <= r < 9 implies back[r] == rows[r] by {
        assert forall|c: int| 0 <= c < 9 implies back[r][c] == rows[r][c] by {
            assert((r * 9 + c) / 9 == r && (r * 9 + c) % 9 == c) by (nonlinear_arith)
                requires
                    0 <= r < 9,
                    0 <= c < 9,
            ;
            assert(is_symbol(rows[r][c]));
        }
        assert(back[r] =~= rows[r]);
    }
    assert(back =~= rows);
}

/// A 9x9 grid; see `wf` for what every grid keeps.
pub struct Sudoku {
    cells: Vec<SudokuCell>,
}

impl View for Sudoku {
    type V = Seq<SudokuCell>;

    closed spec fn view(&self) -> Seq<SudokuCell> {
        self.cells@
    }
}

/// Whether `i` and `j` are peers, by the same arithmetic as `peers`.
pub(crate) fn is_peer(i: usize, j: usize) -> (r: bool)
    requires
        i < 81,
        j < 81,
    ensures
        r == peers(i as int, j as int),
{
    i != j && (i / 9 == j / 9 || i % 9 == j % 9 || (i / 27) * 3 + (i % 9) / 3 == (j / 27) * 3 + (
    j % 9) / 3)
}

impl SudokuCell {
    /// A cell can still be completed when it holds a value or a candidate.
    pub fn is_solvable(&self) -> (r: bool)
        ensures
            r == (self.value != 0 || exists|d: int| #[trigger] has_guess(*self, d)),
    {
        if self.value != 0 {
            return true;
        }
        let mut k: usize = 0;
        while k < 9
            invariant
                k <= 9,
                forall|d: int| 1 <= d <= k ==> !#[trigger] has_guess(*self, d),
            decreases 9 - k,
        {
            if self.guesses[k] {
                assert(has_guess(*self, k + 1));
                return true;
            }
            k += 1;
        }
        false
    }
}

impl Sudoku {
    /// A grid of 81 cells holding digits or blanks, whose candidate sets never
    /// leave out the value that a solution puts in a blank cell.
    pub open spec fn wf(&self) -> bool {
        &&& self@.len() == 81
        &&& forall|i: int| is_cell(i) ==> #[trigger] self@[i].value <= 9
        &&& guesses_sound(self@)
    }

    pub(crate) fn cell(&self, i: usize) -> (c: SudokuCell)
        requires
            i < self@.len(),
        ensures
            c == self@[i as int],
    {
        self.cells[i]
    }

    pub(crate) fn set_cell(&mut self, i: usize, c: SudokuCell)
        requires
            i < old(self)@.len(),
        ensures
            final(self)@ == old(self)@.update(i as int, c),
    {
        self.cells.set(i, c);
    }

    pub(crate) fn clear_guess(&mut self, i: usize, k: usize)
        requires
            i < old(self)@.len(),
            k < 9,
        ensures
            final(self)@.len() == old(self)@.len(),
            final(self)@[i as int].value == old(self)@[i as int].value,
            final(self)@[i as int].guesses@ == old(self)@[i as int].guesses@.update(k as int, false),
            forall|j: int| 0 <= j < old(self)@.len() && j != i ==> final(self)@[j] == old(self)@[j],
            forall|d: int| #[trigger] has_guess(final(self)@[i as int], d) <==> has_guess(
                old(self)@[i as int],
                d,
            ) && d != k + 1,
    {
        self.cells[i].guesses[k] = false;
    }

    /// A grid with every cell blank and every digit a candidate everywhere.
    pub fn new() -> (r: Sudoku)
        ensures
            r.wf(),
            forall|i: int| is_cell(i) ==> #[trigger] r@[i].value == 0 && full_guesses(r@[i]),
    {
        let mut cells: Vec<SudokuCell> = Vec::new();
        let mut i: usize = 0;
        while i < CELLS
            invariant
                i <= CELLS,
                cells@.len() == i,
                forall|j: int| 0 <= j < i ==> (#[trigger] cells@[j]).value == 0 && full_guesses(cells@[j]),
            decreases CELLS - i,
        {
            let c = SudokuCell { value: 0, guesses: [true; 9] };
            assert(full_guesses(c)) by {
                assert(c.guesses@ =~= seq![true; 9]);
            }
            cells.push(c);
            assert(cells@[i as int] == c);
            i += 1;
        }
        let r = Sudoku { cells };
        assert(guesses_sound(r@)) by {
            assert forall|s: Seq<u8>| #[trigger] is_solution_of(s, r@) implies forall|i: int|
                is_cell(i) && r@[i].value == 0 ==> #[trigger] has_guess(r@[i], s[i] as int) by {
                assert forall|i: int| is_cell(i) && r@[i].value == 0 implies #[trigger] has_guess(
                    r@[i],
                    s[i] as int,
                ) by {
                    assert(is_digit(s[i] as int));
                }
            }
        }
        r
    }
}

impl Sudoku {
    /// An independent copy of the grid.
    pub fn clone(&self) -> (r: Sudoku)
        ensures
            r@ == self@,
    {
        let mut cells: Vec<SudokuCell> = Vec::new();
        let mut i: usize = 0;
        while i < self.cells.len()
            invariant
                i <= self.cells@.len(),
                cells@ == self.cells@.subrange(0, i as int),
            decreases self.cells@.len() - i,
        {
            cells.push(self.cells[i]);
            i += 1;
            assert(cells@ =~= self.cells@.subrange(0, i as int));
        }
        assert(cells@ =~= self.cells@);
        Sudoku { cells }
    }

    /// Whether every cell holds a value; says nothing of the rules.
    pub fn is_filled(&self) -> (r: bool)
        requires
            self@.len() == 81,
        ensures
            r == filled(self@),
    {
        let mut i: usize = 0;
        while i < CELLS
            invariant
                i <= CELLS,
                self@.len() == 81,
                forall|j: int| 0 <= j < i ==> #[trigger] self@[j].value != 0,
            decreases CELLS - i,
        {
            if self.cells[i].value == 0 {
                return false;
            }
            i += 1;
        }
        true
    }

    /// Whether `guess` may be placed in the blank cell at row `y`, column `x`:
    /// the cell is blank and no cell of its row, column or block, the cell
    /// itself included, holds `guess`.
    pub fn can_be_placed_at(&self, guess: u8, y: usize, x: usize) -> (r: bool)
        requires
            self@.len() == 81,
            y < 9,
            x < 9,
        ensures
            r == (self@[y * 9 + x].value == 0 && self@[y * 9 + x].value != guess && forall|j: int|
                is_cell(j) && #[trigger] peers(y * 9 + x, j) ==> self@[j].value != guess),
    {
        let i = y * 9 + x;
        if self.cells[i].value != 0 || guess == 0 {
            return false;
        }
        let mut j: usize = 0;
        while j < CELLS
            invariant
                j <= CELLS,
                i == y * 9 + x,
                i < 81,
                self@.len() == 81,
                forall|k: int| 0 <= k < j && #[trigger] peers(i as int, k) ==> self@[k].value != guess,
            decreases CELLS - j,
        {
            if is_peer(i, j) && self.cells[j].value == guess {
                return false;
            }
            j += 1;
        }
        true
    }

    /// Whether no two peers hold the same placed value.
    pub fn is_consistent(&self) -> (r: bool)
        requires
            self@.len() == 81,
        ensures
            r == consistent(self@),
    {
        let mut i: usize = 0;
        while i < CELLS
            invariant
                i <= CELLS,
                self@.len() == 81,
                forall|a: int, b: int|
                    0 <= a < i && is_cell(b) && #[trigger] peers(a, b) && self@[a].value != 0
                        ==> self@[a].value != self@[b].value,
            decreases CELLS - i,
        {
            let v = self.cells[i].value;
            if v != 0 {
                let mut j: usize = 0;
                while j < CELLS
                    invariant
                        j <= CELLS,
                        i < CELLS,
                        self@.len() == 81,
                        v == self@[i as int].value,
                        v != 0,
                        forall|a: int, b: int|
                            0 <= a < i && is_cell(b) && #[trigger] peers(a, b) && self@[a].value
                                != 0 ==> self@[a].value != self@[b].value,
                        forall|b: int| 0 <= b < j && #[trigger] peers(i as int, b) ==> v
                            != self@[b].value,
                    decreases CELLS - j,
                {
                    if is_peer(i, j) && self.cells[j].value == v {
                        return false;
                    }
                    j += 1;
                }
            }
            i += 1;
        }
        true
    }
}

impl Sudoku {
    /// Builds a grid from nine rows of nine symbols, `'0'` for a blank and
    /// `'1'` to `'9'` for a given digit. Every cell starts with all nine
    /// candidates, given or not.
    pub fn from_rows(rows: &Vec<Vec<char>>) -> (r: Result<Sudoku, FormatError>)
        ensures
            r is Ok <==> well_shaped(symbols_of(rows@)) && all_symbols(symbols_of(rows@)),
            r == Err::<Sudoku, FormatError>(FormatError::WrongShape) <==> !well_shaped(
                symbols_of(rows@),
            ),
            r matches Err(FormatError::BadSymbol(row, col)) ==> first_bad_symbol(
                symbols_of(rows@),
                row as int,
                col as int,
            ),
            r is Ok ==> r->Ok_0.wf() && values_of(r->Ok_0@) == values_of_rows(symbols_of(rows@)),
            r is Ok ==> forall|i: int| is_cell(i) ==> #[trigger] full_guesses(r->Ok_0@[i]),
    {
        let ghost sym = symbols_of(rows@);
        if rows.len() != 9 {
            return Err(FormatError::WrongShape);
        }
        let mut y: usize = 0;
        while y < 9
            invariant
                y <= 9,
                rows@.len() == 9,
                sym == symbols_of(rows@),
                forall|k: int| 0 <= k < y ==> #[trigger] sym[k].len() == 9,
            decreases 9 - y,
        {
            if rows[y].len() != 9 {
                assert(sym[y as int] == rows@[y as int]@);
                return Err(FormatError::WrongShape);
            }
            y += 1;
        }
        assert(well_shaped(sym));
        let mut cells: Vec<SudokuCell> = Vec::new();
        y = 0;
        while y < 9
            invariant
                y <= 9,
                well_shaped(sym),
                rows@.len() == 9,
                sym == symbols_of(rows@),
                cells@.len() == y * 9,
                forall|r: int, c: int|
                    0 <= r < 9 && 0 <= c < 9 && r * 9 + c < y * 9 ==> is_symbol(
                        #[trigger] sym[r][c],
                    ),
                forall|r: int, c: int|
                    0 <= r < 9 && 0 <= c < 9 && r * 9 + c < y * 9 ==> (#[trigger] cells@[r * 9
                        + c]).value == symbol_value(sym[r][c]),
                forall|j: int| 0 <= j < cells@.len() ==> (#[trigger] cells@[j]).value <= 9
                    && full_guesses(cells@[j]),
            decreases 9 - y,
        {
            let row = &rows[y];
            assert(row@ == sym[y as int]);
            let mut x: usize = 0;
            while x < 9
                invariant
                    y < 9,
                    x <= 9,
                    well_shaped(sym),
                    rows@.len() == 9,
                    sym == symbols_of(rows@),
                    row@ == sym[y as int],
                    cells@.len() == y * 9 + x,
                    forall|r: int, c: int|
                        0 <= r < 9 && 0 <= c < 9 && r * 9 + c < y * 9 + x ==> is_symbol(
                            #[trigger] sym[r][c],
                        ),
                    forall|r: int, c: int|
                        0 <= r < 9 && 0 <= c < 9 && r * 9 + c < y * 9 + x ==> (
                        #[trigger] cells@[r * 9 + c]).value == symbol_value(sym[r][c]),
                    forall|j: int| 0 <= j < cells@.len() ==> (#[trigger] cells@[j]).value <= 9
                        && full_guesses(cells@[j]),
                decreases 9 - x,
            {
                let ch = row[x];
                if !('0' <= ch && ch <= '9') {
                    assert(first_bad_symbol(sym, y as int, x as int));
                    assert(!all_symbols(sym));
                    return Err(FormatError::BadSymbol(y, x));
                }
                let c = SudokuCell { value: (ch as u32 - '0' as u32) as u8, guesses: [true; 9] };
                assert(full_guesses(c)) by {
                    assert(c.guesses@ =~= seq![true; 9]);
                }
                cells.push(c);
                assert(cells@[y * 9 + x] == c);
                x += 1;
            }
            y += 1;
        }
        let g = Sudoku { cells };
        assert(values_of(g@) =~= values_of_rows(sym)) by {
            assert forall|j: int| 0 <= j < 81 implies values_of(g@)[j] == values_of_rows(sym)[j] by {
                let r = j / 9;
                let c = j % 9;
                assert(j == r * 9 + c);
                assert(g@[r * 9 + c].value == symbol_value(sym[r][c]));
            }
        }
        assert(guesses_sound(g@)) by {
            assert forall|s: Seq<u8>| #[trigger] is_solution_of(s, g@) implies forall|i: int|
                is_cell(i) && g@[i].value == 0 ==> #[trigger] has_guess(g@[i], s[i] as int) by {
                assert forall|i: int| is_cell(i) && g@[i].value == 0 implies #[trigger] has_guess(
                    g@[i],
                    s[i] as int,
                ) by {
                    assert(is_digit(s[i] as int));
                    assert(full_guesses(g@[i]));
                }
            }
        }
        Ok(g)
    }

    /// The nine rows of nine symbols that describe the grid, `'0'` for a blank.
    pub fn render(&self) -> (r: Vec<Vec<char>>)
        requires
            self.wf(),
        ensures
            symbols_of(r@) == rows_of_values(values_of(self@)),
    {
        let mut out: Vec<Vec<char>> = Vec::new();
        let mut y: usize = 0;
        while y < 9
            invariant
                y <= 9,
                self.wf(),
                out@.len() == y,
                forall|r: int| 0 <= r < y ==> (#[trigger] out@[r])@ == rows_of_values(
                    values_of(self@),
                )[r],
            decreases 9 - y,
        {
            let mut row: Vec<char> = Vec::new();
            let mut x: usize = 0;
            while x < 9
                invariant
                    y < 9,
                    x <= 9,
                    self.wf(),
                    row@.len() == x,
                    forall|c: int| 0 <= c < x ==> #[trigger] row@[c] == symbol_of(
                        self@[y * 9 + c].value,
                    ),
                decreases 9 - x,
            {
                let v = self.cells[y * 9 + x].value;
                row.push((v + 48) as char);
                x += 1;
            }
            assert(row@ =~= rows_of_values(values_of(self@))[y as int]);
            out.push(row);
            y += 1;
        }
        assert(symbols_of(out@) =~= rows_of_values(values_of(self@)));
        out
    }
}

impl Sudoku {
    /// The cell at row `y`, column `x`.
    pub fn cell_at(&self, y: usize, x: usize) -> (c: SudokuCell)
        requires
            self.wf(),
            y < 9,
            x < 9,
        ensures
            c == self@[y * 9 + x],
    {
        self.cells[y * 9 + x]
    }
}

impl Default for Sudoku {
    /// The blank grid of `new`.
    fn default() -> (r: Sudoku)
        ensures
            r.wf(),
            forall|i: int| is_cell(i) ==> #[trigger] r@[i].value == 0 && full_guesses(r@[i]),
    {
        Sudoku::new()
    }
}

impl Default for SudokuCell {
    /// A blank cell without candidates.
    fn default() -> (r: SudokuCell)
        ensures
            r.value == 0,
            no_guesses(r),
    {
        let r = SudokuCell { value: 0, guesses: [false; 9] };
        assert forall|d: int| !#[trigger] has_guess(r, d) by {
            if is_digit(d) {
                assert(r.guesses@ =~= seq![false; 9]);
            }
        }
        r
    }
}

} // verus!
