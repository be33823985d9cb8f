//! Rectangles of grid coordinates, as requested by readers of the grid.
use vstd::prelude::*;

verus! {

/// A rectangle of cells: rows `[start_row, stop_row)`, columns `[start_col, stop_col)`.
#[derive(Debug, Clone, Copy, PartialEq, Eq, Structural)]
pub struct Rect {
    pub start_row: i32,
    pub start_col: i32,
    pub stop_row: i32,
    pub stop_col: i32,
}

/// `v` limited to the interval `[0, max]`.
pub open spec fn clamp_spec(v: int, max: int) -> int {
    if v < 0 {
        0
    } else if v > max {
        max
    } else {
        v
    }
}

fn clamp_coord(v: i32, max: i32) -> (r: i32)
    requires
        0 <= max,
    ensures
        r == clamp_spec(v as int, max as int),
{
    if v < 0 {
        0
    } else if v > max {
        max
    } else {
        v
    }
}

impl Rect {
    /// Limits every bound to the grid: rows to `[0, max_row]`, columns to `[0, max_col]`.
    pub fn clamp(&self, max_row: i32, max_col: i32) -> (r: Rect)
        requires
            0 <= max_row,
            0 <= max_col,
        ensures
            r.start_row == clamp_spec(self.start_row as int, max_row as int),
            r.stop_row == clamp_spec(self.stop_row as int, max_row as int),
            r.start_col == clamp_spec(self.start_col as int, max_col as int),
            r.stop_col == clamp_spec(self.stop_col as int, max_col as int),
    {
        Rect {
            start_row: clamp_coord(self.start_row, max_row),
            stop_row: clamp_coord(self.stop_row, max_row),
            start_col: clamp_coord(self.start_col, max_col),
            stop_col: clamp_coord(self.stop_col, max_col),
        }
    }
}

/// The number of columns of `r`.
pub fn width(r: &Rect) -> (w: i32)
    requires
        i32::MIN <= r.stop_col - r.start_col <= i32::MAX,
    ensures
        w == r.stop_col - r.start_col,
{
    r.stop_col - r.start_col
}

} // verus!
