//! What the evaluator needs to know of a grid.
use crate::models::cell::Cell;
use crate::models::rect::Rect;
use vstd::prelude::*;

verus! {

/// The mathematical content of a grid as the evaluator sees it: its size and
/// the raw text of the cells that hold any.
pub struct Sheet {
    pub rows: int,
    pub cols: int,
    pub cells: Map<(int, int), Seq<char>>,
}

impl Sheet {
    /// Whether the position lies inside the grid.
    pub open spec fn in_grid(self, row: int, col: int) -> bool {
        0 <= row < self.rows && 0 <= col < self.cols
    }

    /// The raw text at a position; `None` outside the grid and where the
    /// grid holds no text.
    pub open spec fn text_at(self, row: int, col: int) -> Option<Seq<char>> {
        if self.in_grid(row, col) && self.cells.contains_key((row, col)) {
            Some(self.cells[(row, col)])
        } else {
            None
        }
    }

    /// The number of positions of the grid.
    pub open spec fn capacity(self) -> int {
        self.rows * self.cols
    }

    /// The positions with text inside `r`, limited to the grid, row by row.
    pub open spec fn cells_of(self, r: Rect) -> Seq<crate::parser::ast::CellRef> {
        crate::parser::evaluator::cells_from(
            crate::models::rect::clamp_spec(r.start_row as int, self.rows),
            crate::models::rect::clamp_spec(r.start_col as int, self.cols),
            crate::models::rect::clamp_spec(r.stop_row as int, self.rows) - 1,
            crate::models::rect::clamp_spec(r.start_col as int, self.cols),
            crate::models::rect::clamp_spec(r.stop_col as int, self.cols) - 1,
            self,
        )
    }
}

/// A grid that formulas can be evaluated against.
pub trait EvalContext {
    /// Whether the grid is consistent. Its constructors see to that, and
    /// its methods keep it so.
    spec fn valid(&self) -> bool;

    /// The grid's content.
    spec fn sheet(&self) -> Sheet;

    /// The cell at a position, if the grid holds text there.
    fn get_cell(&self, row: i32, col: i32) -> (r: Option<Cell>)
        requires
            self.valid(),
        ensures
            match self.sheet().text_at(row as int, col as int) {
                Some(text) => r is Some && r->Some_0.value@ == text && r->Some_0.row == row
                    && r->Some_0.col == col,
                None => r is None,
            },
    ;

    /// The cells with text inside `rect`, limited to the grid, row by row.
    fn get_cells(&self, rect: Rect) -> (cells: Vec<Cell>)
        requires
            self.valid(),
        ensures
            cells@.len() == self.sheet().cells_of(rect).len(),
            forall|i: int|
                0 <= i < cells@.len() ==> {
                    let cell = #[trigger] cells@[i];
                    &&& cell.row == self.sheet().cells_of(rect)[i].row
                    &&& cell.col == self.sheet().cells_of(rect)[i].col
                    &&& self.sheet().text_at(cell.row as int, cell.col as int) == Some(cell.value@)
                },
    ;

    /// The number of rows.
    fn num_rows(&self) -> (r: i32)
        requires
            self.valid(),
        ensures
            r == self.sheet().rows,
    ;

    /// The number of columns.
    fn num_cols(&self) -> (r: i32)
        requires
            self.valid(),
        ensures
            r == self.sheet().cols,
    ;
}

} // verus!
