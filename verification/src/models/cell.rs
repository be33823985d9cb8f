//! Cells, their positions, and the ranges of positions that formulas read.
use vstd::prelude::*;
use vstd::string::StrSliceExecFns;

verus! {

/// A grid position with the raw text a user typed and the text shown for it.
#[derive(Debug, Clone, PartialEq)]
pub struct Cell {
    pub row: i32,
    pub col: i32,
    pub value: String,
    pub display_value: String,
}

/// The mathematical content of a [`Cell`].
pub struct CellView {
    pub row: int,
    pub col: int,
    pub value: Seq<char>,
    pub display_value: Seq<char>,
}

impl View for Cell {
    type V = CellView;

    open spec fn view(&self) -> CellView {
        CellView {
            row: self.row as int,
            col: self.col as int,
            value: self.value@,
            display_value: self.display_value@,
        }
    }
}

/// The identity of a cell: its row and column.
#[derive(Debug, Eq, PartialOrd, Ord, Copy, Hash, Clone, PartialEq, Structural)]
pub struct CellLocation {
    pub row: i32,
    pub col: i32,
}

/// A rectangle of positions, half-open on the stop bounds: rows
/// `[start_row, stop_row)` and columns `[start_col, stop_col)`.
///
/// A `stop_row` of `-1` stands for "down to the last row of the grid" and is
/// replaced by the grid's row count only when the range is put to use.
#[derive(Debug, Eq, Copy, Hash, Clone, PartialEq, Structural)]
pub struct CellRange {
    pub start_row: i32,
    pub start_col: i32,
    pub stop_row: i32,
    pub stop_col: i32,
}

/// `v + 1`, or `v` where that cannot be stored.
pub open spec fn next_bound(v: i32) -> i32 {
    if v < i32::MAX {
        (v + 1) as i32
    } else {
        v
    }
}

/// `v + 1`, or `v` where that cannot be stored.
pub(crate) fn bound_after(v: i32) -> (r: i32)
    ensures
        r == next_bound(v),
{
    if v < i32::MAX {
        v + 1
    } else {
        v
    }
}

impl CellLocation {
    /// The range that holds this position and no other. For a position in
    /// the last row or column that an `i32` can name the range is empty: no
    /// stop bound lies beyond it.
    pub fn to_range(&self) -> (r: CellRange)
        ensures
            r == self.spec_to_range(),
    {
        CellRange {
            start_row: self.row,
            stop_row: bound_after(self.row),
            start_col: self.col,
            stop_col: bound_after(self.col),
        }
    }

    /// The range `[row, row + 1) x [col, col + 1)`, with a stop bound that
    /// an `i32` cannot hold replaced by the largest `i32`.
    pub open spec fn spec_to_range(self) -> CellRange {
        CellRange {
            start_row: self.row,
            stop_row: next_bound(self.row),
            start_col: self.col,
            stop_col: next_bound(self.col),
        }
    }

    /// The squared length of the position read as a vector from the origin.
    pub fn magnitude(&self) -> (m: i32)
        requires
            self.row * self.row + self.col * self.col <= i32::MAX,
        ensures
            m == self.row * self.row + self.col * self.col,
    {
        assert(0 <= self.row * self.row && 0 <= self.col * self.col) by (nonlinear_arith);
        self.row * self.row + self.col * self.col
    }
}

impl CellRange {
    /// Whether the position `(row, col)` lies inside the range.
    pub open spec fn contains(self, row: int, col: int) -> bool {
        &&& self.start_row <= row < self.stop_row
        &&& self.start_col <= col < self.stop_col
    }

    /// Whether the range runs down to the end of the grid.
    pub open spec fn is_unbounded(self) -> bool {
        self.stop_row == -1
    }

    /// The range with an open end replaced by `max_rows`.
    pub open spec fn clamped(self, max_rows: i32) -> CellRange {
        if self.is_unbounded() {
            CellRange { stop_row: max_rows, ..self }
        } else {
            self
        }
    }

    /// Resolves an open end: a `stop_row` of `-1` becomes `max_rows`; any
    /// other range is left as it is.
    pub fn clamp(&mut self, max_rows: i32)
        ensures
            *final(self) == old(self).clamped(max_rows),
    {
        if self.stop_row != -1 {
            return ;
        }
        self.stop_row = max_rows
    }
}

impl Cell {
    /// Whether the raw text is a formula, that is, begins with `=`.
    pub fn is_formula(&self) -> (b: bool)
        ensures
            b == is_formula_text(self.value@),
    {
        !self.value.as_str().is_empty() && self.value.as_str().get_char(0) == '='
    }

    /// The position of the cell.
    pub fn loc(&self) -> (l: CellLocation)
        ensures
            l == self.spec_loc(),
    {
        CellLocation { row: self.row, col: self.col }
    }

    /// The position of the cell.
    pub open spec fn spec_loc(&self) -> CellLocation {
        CellLocation { row: self.row, col: self.col }
    }

    /// The range that holds the cell's position and no other: see
    /// [`CellLocation::to_range`].
    pub fn to_range(&self) -> (r: CellRange)
        ensures
            r == self.spec_loc().spec_to_range(),
    {
        self.loc().to_range()
    }

    /// The cell at the origin with no text.
    pub fn empty() -> (c: Cell)
        ensures
            c.row == 0,
            c.col == 0,
            c.value@ == Seq::<char>::empty(),
            c.display_value@ == Seq::<char>::empty(),
    {
        Cell { row: 0, col: 0, value: String::new(), display_value: String::new() }
    }

    /// A cell with raw text `value` that has not been displayed yet.
    pub fn new(row: i32, col: i32, value: String) -> (c: Cell)
        ensures
            c.row == row,
            c.col == col,
            c.value == value,
            c.display_value@ == Seq::<char>::empty(),
    {
        Cell { row, col, value, display_value: String::new() }
    }

    /// A copy of the cell; [`Clone::clone`] gives the same value to callers
    /// outside verified code.
    pub fn duplicate(&self) -> (c: Cell)
        ensures
            c == *self,
    {
        Cell {
            row: self.row,
            col: self.col,
            value: self.value.clone(),
            display_value: self.display_value.clone(),
        }
    }
}

/// Whether `text` begins with `=`.
pub open spec fn is_formula_text(text: Seq<char>) -> bool {
    text.len() > 0 && text[0] == '='
}

} // verus!
