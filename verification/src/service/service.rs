//! The cell store: a grid of cells in memory that recomputes what an edit
//! reaches.
use crate::models::cell::Cell;
use crate::models::cell::CellLocation;
use crate::models::cell::CellRange;
use crate::models::context::EvalContext;
use crate::models::rect::Rect;
use crate::parser::evaluator::evaluate;
use crate::parser::evaluator::get_refs;
use crate::parser::parser::parse;
use crate::parser::parser::Error;
use crate::service::formula_graph::FormulaGraph;
use vstd::prelude::*;
use vstd::string::StringExecFns;

verus! {

/// A store of cells that recomputes what an edit reaches.
pub trait CellsService {
    /// Whether the store is consistent. Its constructors see to that, and
    /// its methods keep it so.
    spec fn consistent(&self) -> bool;

    /// The size of the grid and the raw text of its cells.
    spec fn grid(&self) -> crate::models::context::Sheet;

    /// The text shown at a position of the grid.
    spec fn shown_at(&self, row: int, col: int) -> Seq<char>;

    /// The read-dependencies that the store has recorded.
    spec fn edges(&self) -> Seq<crate::service::formula_graph::Edge>;

    /// Writes the raw text of `cells` into the grid and recomputes what the
    /// edits reach.
    ///
    /// Fails, and changes nothing, where a cell lies outside the grid.
    /// Otherwise every text is written first. Then each cell in turn is
    /// parsed, the ranges that it reads are handed to the dependency graph
    /// with an open end closed at the grid's row count, and the cells that
    /// the graph names are recomputed from the raw text that the grid holds:
    /// the edited cell first, then the cells that read a range over it, then
    /// the cells that read a range over one of those, and so on. The cells
    /// that the graph found on a circular chain are not evaluated and show
    /// `#CIRCULAR!`. A malformed formula fails nothing: the cell shows the
    /// parser's message.
    ///
    /// Returns the recomputed cells as they were stored, in the order in
    /// which they were recomputed: for each cell of `cells` in turn, the
    /// cells that the graph says to evaluate, from the end of its list to the
    /// start, and then the cells that it found circular. Among them is a
    /// cell for each position of `cells` and for each cell that reads one of
    /// these positions. A position that is not among them shows what it
    /// showed before.
    fn insert_cells(&mut self, cells: &Vec<Cell>) -> (r: Result<Vec<Cell>, Error>)
        requires
            old(self).consistent(),
        ensures
            final(self).consistent(),
            final(self).grid().rows == old(self).grid().rows,
            final(self).grid().cols == old(self).grid().cols,
            all_inside(cells@, old(self).grid().rows, old(self).grid().cols) ==> {
                &&& r is Ok
                &&& final(self).grid() == written(old(self).grid(), cells@)
                &&& final(self).edges() == edges_after(
                    old(self).edges(),
                    final(self).grid(),
                    cells@,
                )
                &&& explains(r->Ok_0@, old(self).edges(), final(self).grid(), cells@)
                &&& shown_right(r->Ok_0@, final(self).grid())
                &&& holds_each(r->Ok_0@, cells@)
                &&& holds_readers(r->Ok_0@, cells@, final(self).edges())
                &&& forall|row: int, col: int|
                    final(self).grid().in_grid(row, col) ==> if has_cell_at(r->Ok_0@, row, col) {
                        carries(r->Ok_0@, row, col, #[trigger] final(self).shown_at(row, col))
                    } else {
                        final(self).shown_at(row, col) == old(self).shown_at(row, col)
                    }
            },
            !all_inside(cells@, old(self).grid().rows, old(self).grid().cols) ==> {
                &&& r is Err
                &&& r->Err_0@ == outside_grid()
                &&& final(self).grid() == old(self).grid()
                &&& final(self).edges() == old(self).edges()
                &&& forall|row: int, col: int|
                    final(self).shown_at(row, col) == old(self).shown_at(row, col)
            },
    ;

    /// The cells with text inside `r`, limited to the grid, row by row, as
    /// they are stored. A position without text gives no cell.
    fn get_cells(&self, r: Rect) -> (cells: Vec<Cell>)
        requires
            self.consistent(),
        ensures
            cells@.len() == self.grid().cells_of(r).len(),
            forall|i: int|
                0 <= i < cells@.len() ==> {
                    let cell = #[trigger] cells@[i];
                    &&& cell.row == self.grid().cells_of(r)[i].row
                    &&& cell.col == self.grid().cells_of(r)[i].col
                    &&& self.grid().text_at(cell.row as int, cell.col as int) == Some(cell.value@)
                    &&& cell.display_value@ == self.shown_at(cell.row as int, cell.col as int)
                },
    ;
}

/// A grid of cells in memory, with the dependency graph of its formulas.
pub struct MemoryCellsService {
    num_rows: i32,
    num_cols: i32,
    // Row by row: the cell at (row, col) lies at row * num_cols + col.
    data: Vec<Cell>,
    formula_graph: FormulaGraph,
}

/// The text shown for a cell on a circular chain of references.
pub open spec fn circular_display() -> Seq<char> {
    "#CIRCULAR!"@
}

/// The message for a cell that lies outside the grid.
pub open spec fn outside_grid() -> Seq<char> {
    "cell lies outside the grid"@
}

/// `sheet` after the raw text of `cell` was written: an empty text clears
/// the position.
pub open spec fn write_one(
    sheet: crate::models::context::Sheet,
    cell: crate::models::cell::CellView,
) -> crate::models::context::Sheet {
    crate::models::context::Sheet {
        rows: sheet.rows,
        cols: sheet.cols,
        cells: if cell.value.len() == 0 {
            sheet.cells.remove((cell.row, cell.col))
        } else {
            sheet.cells.insert((cell.row, cell.col), cell.value)
        },
    }
}

/// `sheet` after the raw text of each cell of `cells` was written, in order.
pub open spec fn written(sheet: crate::models::context::Sheet, cells: Seq<Cell>)
    -> crate::models::context::Sheet
    decreases cells.len(),
{
    if cells.len() == 0 {
        sheet
    } else {
        write_one(written(sheet, cells.drop_last()), cells.last()@)
    }
}

/// Whether every cell of `cells` lies inside a grid of `rows` by `cols`.
pub open spec fn all_inside(cells: Seq<Cell>, rows: int, cols: int) -> bool {
    forall|i: int|
        0 <= i < cells.len() ==> 0 <= (#[trigger] cells[i]).row < rows && 0 <= cells[i].col < cols
}

/// The raw text at a position; the empty text where there is none.
pub open spec fn text_or_empty(sheet: crate::models::context::Sheet, row: int, col: int) -> Seq<
    char,
> {
    match sheet.text_at(row, col) {
        Some(text) => text,
        None => Seq::empty(),
    }
}

/// `ranges` with each open end closed at `rows`.
pub open spec fn clamp_all(ranges: Seq<CellRange>, rows: i32) -> Seq<CellRange> {
    Seq::new(ranges.len(), |i: int| ranges[i].clamped(rows))
}

/// The ranges that the text at a position reads, each open end closed at
/// the grid's row count.
pub open spec fn formula_ranges(sheet: crate::models::context::Sheet, row: int, col: int) -> Seq<
    CellRange,
> {
    clamp_all(
        crate::parser::evaluator::refs_of(
            crate::parser::parser::parse_text(text_or_empty(sheet, row, col)),
        ),
        sheet.rows as i32,
    )
}

/// The edges after an edit of the position `(row, col)`: the edges that
/// left it are gone, and the ranges that its text reads are there.
pub open spec fn edges_after_one(
    edges: Seq<crate::service::formula_graph::Edge>,
    sheet: crate::models::context::Sheet,
    loc: CellLocation,
) -> Seq<crate::service::formula_graph::Edge> {
    crate::service::formula_graph::with_ranges(
        crate::service::formula_graph::without_cell(edges, loc),
        loc,
        formula_ranges(sheet, loc.row as int, loc.col as int),
    )
}

/// The edges after an edit of the position of each cell of `cells`, in
/// order, in a grid that holds the raw text `sheet`.
pub open spec fn edges_after(
    edges: Seq<crate::service::formula_graph::Edge>,
    sheet: crate::models::context::Sheet,
    cells: Seq<Cell>,
) -> Seq<crate::service::formula_graph::Edge>
    decreases cells.len(),
{
    if cells.len() == 0 {
        edges
    } else {
        edges_after_one(edges_after(edges, sheet, cells.drop_last()), sheet, cells.last().spec_loc())
    }
}

/// Whether each cell of `changed` lies in the grid, carries the raw text
/// that `sheet` holds at its position, and shows either the value of that
/// text in `sheet` or the mark of a circular chain.
pub open spec fn shown_right(changed: Seq<Cell>, sheet: crate::models::context::Sheet) -> bool {
    forall|i: int|
        0 <= i < changed.len() ==> {
            let cell = #[trigger] changed[i];
            &&& sheet.in_grid(cell.row as int, cell.col as int)
            &&& cell.value@ == text_or_empty(sheet, cell.row as int, cell.col as int)
            &&& (cell.display_value@ == crate::parser::evaluator::display_text(cell.value@, sheet)
                || cell.display_value@ == circular_display())
        }
}

/// Whether `cell` is the cell of `loc` as the grid holds it, showing `shown`.
pub open spec fn placed(
    cell: Cell,
    loc: CellLocation,
    sheet: crate::models::context::Sheet,
    shown: Seq<char>,
) -> bool {
    &&& cell.row == loc.row
    &&& cell.col == loc.col
    &&& sheet.in_grid(loc.row as int, loc.col as int)
    &&& cell.value@ == text_or_empty(sheet, loc.row as int, loc.col as int)
    &&& cell.display_value@ == shown
}

/// Whether `cell` is the cell of `loc` as the grid holds it after it was
/// recomputed: it shows the mark of a circular chain if it is `circular`,
/// and else the value of its text in `sheet`.
pub open spec fn shows(
    cell: Cell,
    loc: CellLocation,
    sheet: crate::models::context::Sheet,
    circular: bool,
) -> bool {
    placed(
        cell,
        loc,
        sheet,
        if circular {
            circular_display()
        } else {
            crate::parser::evaluator::display_text(
                text_or_empty(sheet, loc.row as int, loc.col as int),
                sheet,
            )
        },
    )
}

/// Whether `segment` is what one edit recomputes: the cells of `inserted`
/// from the end of the list to its start, each evaluated, and then the
/// cells of `circular`, each marked.
pub open spec fn recomputed(
    segment: Seq<Cell>,
    inserted: Seq<CellLocation>,
    circular: Seq<CellLocation>,
    sheet: crate::models::context::Sheet,
) -> bool {
    &&& segment.len() == inserted.len() + circular.len()
    &&& forall|k: int|
        0 <= k < inserted.len() ==> shows(
            #[trigger] segment[k],
            inserted[inserted.len() - 1 - k],
            sheet,
            false,
        )
    &&& forall|k: int|
        0 <= k < circular.len() ==> shows(
            #[trigger] segment[inserted.len() + k],
            circular[k],
            sheet,
            true,
        )
}

/// Whether `segment` is what the edit of `loc` recomputes where the spatial
/// index yields the cells that read `loc` in the order `seeds`.
pub open spec fn step(
    segment: Seq<Cell>,
    seeds: Seq<CellLocation>,
    edges: Seq<crate::service::formula_graph::Edge>,
    sheet: crate::models::context::Sheet,
    loc: CellLocation,
) -> bool {
    &&& crate::service::formula_graph::seeds_of(edges, seeds, loc)
    &&& recomputed(
        segment,
        crate::service::formula_graph::schedule(edges, seeds, loc).0,
        crate::service::formula_graph::schedule(edges, seeds, loc).1,
        sheet,
    )
}

/// Whether the last `n` cells of `res` are what the edit of the last cell of
/// `cells` recomputes, after the edits of the cells before it.
pub open spec fn last_step(
    res: Seq<Cell>,
    n: int,
    seeds: Seq<CellLocation>,
    edges: Seq<crate::service::formula_graph::Edge>,
    sheet: crate::models::context::Sheet,
    cells: Seq<Cell>,
) -> bool {
    &&& 0 <= n <= res.len()
    &&& cells.len() > 0
    &&& step(
        res.skip(res.len() - n),
        seeds,
        edges_after(edges, sheet, cells),
        sheet,
        cells.last().spec_loc(),
    )
}

/// Whether `res` is what the edits of `cells` recompute, one after the
/// other, in a grid that holds the raw text `sheet` and knew the edges
/// `edges` before: each edit adds to the graph what its cell reads and then
/// recomputes what the graph names.
pub open spec fn explains(
    res: Seq<Cell>,
    edges: Seq<crate::service::formula_graph::Edge>,
    sheet: crate::models::context::Sheet,
    cells: Seq<Cell>,
) -> bool
    decreases cells.len(),
{
    if cells.len() == 0 {
        res.len() == 0
    } else {
        exists|n: int, seeds: Seq<CellLocation>|
            #[trigger] last_step(res, n, seeds, edges, sheet, cells) && explains(
                res.take(res.len() - n),
                edges,
                sheet,
                cells.drop_last(),
            )
    }
}

/// Whether `changed` holds a cell of the position `(row, col)`.
pub open spec fn has_cell_at(changed: Seq<Cell>, row: int, col: int) -> bool {
    exists|j: int|
        0 <= j < changed.len() && (#[trigger] changed[j]).row == row && changed[j].col == col
}

/// Whether `changed` holds a cell of the position `(row, col)` that shows
/// `shown`.
pub open spec fn carries(changed: Seq<Cell>, row: int, col: int, shown: Seq<char>) -> bool {
    exists|j: int|
        0 <= j < changed.len() && (#[trigger] changed[j]).row == row && changed[j].col == col
            && changed[j].display_value@ == shown
}

/// Whether `changed` holds a cell of the position of each cell of `cells`.
pub open spec fn holds_each(changed: Seq<Cell>, cells: Seq<Cell>) -> bool {
    forall|i: int|
        0 <= i < cells.len() ==> has_cell_at(
            changed,
            (#[trigger] cells[i]).row as int,
            cells[i].col as int,
        )
}

/// Whether `changed` holds a cell of each position that reads, by `edges`,
/// a range over `loc`.
pub open spec fn holds_readers_of(
    changed: Seq<Cell>,
    loc: CellLocation,
    edges: Seq<crate::service::formula_graph::Edge>,
) -> bool {
    forall|c: CellLocation| #[trigger]
        crate::service::formula_graph::reads(edges, c, loc) ==> has_cell_at(
            changed,
            c.row as int,
            c.col as int,
        )
}

/// Whether `changed` holds a cell of each position that reads, by `edges`,
/// a range over the position of a cell of `cells`.
pub open spec fn holds_readers(
    changed: Seq<Cell>,
    cells: Seq<Cell>,
    edges: Seq<crate::service::formula_graph::Edge>,
) -> bool {
    forall|i: int|
        0 <= i < cells.len() ==> holds_readers_of(changed, (#[trigger] cells[i]).spec_loc(), edges)
}

/// Whether `after` is `before` with more cells at its end.
pub open spec fn grown(before: Seq<Cell>, after: Seq<Cell>) -> bool {
    &&& before.len() <= after.len()
    &&& forall|i: int| 0 <= i < before.len() ==> after[i] == before[i]
}

/// Whether every cell of `edges` lies inside a grid of `rows` by `cols`.
pub open spec fn cells_inside(
    edges: Seq<crate::service::formula_graph::Edge>,
    rows: int,
    cols: int,
) -> bool {
    forall|i: int|
        0 <= i < edges.len() ==> 0 <= (#[trigger] edges[i]).cell.row < rows && 0
            <= edges[i].cell.col < cols
}

/// A list that grows keeps the cells that it holds.
proof fn lemma_grown(before: Seq<Cell>, after: Seq<Cell>)
    requires
        grown(before, after),
    ensures
        forall|row: int, col: int| #[trigger]
            has_cell_at(before, row, col) ==> has_cell_at(after, row, col),
        forall|row: int, col: int, shown: Seq<char>| #[trigger]
            carries(before, row, col, shown) ==> carries(after, row, col, shown),
{
    assert forall|row: int, col: int| #[trigger] has_cell_at(before, row, col) implies has_cell_at(
        after,
        row,
        col,
    ) by {
        let j = choose|j: int|
            0 <= j < before.len() && (#[trigger] before[j]).row == row && before[j].col == col;
        assert(after[j] == before[j]);
    }
    assert forall|row: int, col: int, shown: Seq<char>| #[trigger]
        carries(before, row, col, shown) implies carries(after, row, col, shown) by {
        let j = choose|j: int|
            0 <= j < before.len() && (#[trigger] before[j]).row == row && before[j].col == col
                && before[j].display_value@ == shown;
        assert(after[j] == before[j]);
    }
}

/// A list with one more cell holds what it held and the position of that
/// cell, and nothing else.
proof fn lemma_pushed(before: Seq<Cell>, cell: Cell)
    ensures
        grown(before, before.push(cell)),
        has_cell_at(before.push(cell), cell.row as int, cell.col as int),
        carries(before.push(cell), cell.row as int, cell.col as int, cell.display_value@),
        forall|row: int, col: int|
            (row != cell.row || col != cell.col) ==> (#[trigger] has_cell_at(
                before.push(cell),
                row,
                col,
            ) <==> has_cell_at(before, row, col)),
{
    let after = before.push(cell);
    assert(after[before.len() as int] == cell);
    assert forall|row: int, col: int| (row != cell.row || col != cell.col) implies (
    #[trigger] has_cell_at(after, row, col) <==> has_cell_at(before, row, col)) by {
        if has_cell_at(after, row, col) {
            let j = choose|j: int|
                0 <= j < after.len() && (#[trigger] after[j]).row == row && after[j].col == col;
            assert(before[j] == after[j]);
        }
        if has_cell_at(before, row, col) {
            let j = choose|j: int|
                0 <= j < before.len() && (#[trigger] before[j]).row == row && before[j].col == col;
            assert(after[j] == before[j]);
        }
    }
}

/// The index of a position in row-by-row order lies inside the grid's data.
proof fn lemma_index_bound(row: int, col: int, rows: int, cols: int)
    requires
        0 <= row < rows,
        0 <= col < cols,
    ensures
        0 <= row * cols + col < rows * cols,
{
    assert(row * cols + col < rows * cols) by (nonlinear_arith)
        requires
            0 <= row < rows,
            0 <= col < cols,
    ;
    assert(0 <= row * cols) by (nonlinear_arith)
        requires
            0 <= row,
            0 <= cols,
    ;
}

/// Two positions with the same index are the same position.
proof fn lemma_index_unique(r1: int, c1: int, r2: int, c2: int, cols: int)
    requires
        0 <= c1 < cols,
        0 <= c2 < cols,
        r1 * cols + c1 == r2 * cols + c2,
    ensures
        r1 == r2,
        c1 == c2,
{
    assert(r1 == r2) by (nonlinear_arith)
        requires
            0 <= c1 < cols,
            0 <= c2 < cols,
            r1 * cols + c1 == r2 * cols + c2,
    ;
}

fn row_major_idx(row: i32, col: i32, num_rows: i32, num_cols: i32) -> (idx: usize)
    requires
        0 <= row < num_rows,
        0 <= col < num_cols,
        num_rows * num_cols <= usize::MAX,
    ensures
        idx == row * num_cols + col,
        idx < num_rows * num_cols,
{
    proof {
        lemma_index_bound(row as int, col as int, num_rows as int, num_cols as int);
        assert(row * num_cols <= 0x7fff_ffff * 0x7fff_ffff) by (nonlinear_arith)
            requires
                0 <= row <= 0x7fff_ffff,
                0 <= num_cols <= 0x7fff_ffff,
        ;
    }
    ((row as u64) * (num_cols as u64) + (col as u64)) as usize
}

impl MemoryCellsService {
    /// The raw text of the grid, as the evaluator sees it.
    pub closed spec fn spec_sheet(&self) -> crate::models::context::Sheet {
        crate::models::context::Sheet {
            rows: self.num_rows as int,
            cols: self.num_cols as int,
            cells: Map::new(
                |k: (int, int)|
                    0 <= k.0 < self.num_rows && 0 <= k.1 < self.num_cols && self.data@[k.0
                        * self.num_cols + k.1].value@.len() > 0,
                |k: (int, int)| self.data@[k.0 * self.num_cols + k.1].value@,
            ),
        }
    }

    /// The dependency graph of the grid.
    pub closed spec fn graph(&self) -> FormulaGraph {
        self.formula_graph
    }

    /// The text shown at a position of the grid.
    pub closed spec fn display_at(&self, row: int, col: int) -> Seq<char> {
        self.data@[row * self.num_cols + col].display_value@
    }

    /// Whether the store is consistent: the data covers the grid, each
    /// position holds the cell of that position, the graph is consistent,
    /// and the cells that it knows lie in the grid.
    pub closed spec fn wf(&self) -> bool {
        &&& 0 <= self.num_rows
        &&& 0 <= self.num_cols
        &&& self.num_rows * self.num_cols <= usize::MAX
        &&& self.data@.len() == self.num_rows * self.num_cols
        &&& forall|r: int, c: int|
            0 <= r < self.num_rows && 0 <= c < self.num_cols ==> (#[trigger] self.data@[r
                * self.num_cols + c]).row == r && self.data@[r * self.num_cols + c].col == c
        &&& self.formula_graph.wf()
        &&& cells_inside(self.formula_graph.edges(), self.num_rows as int, self.num_cols as int)
    }

    /// Whether the position shows the same here and in `other`.
    pub closed spec fn shows_as(&self, other: MemoryCellsService, row: int, col: int) -> bool {
        self.display_at(row, col) == other.display_at(row, col)
    }

    /// Whether `changed` accounts for what the grid shows: a position of
    /// which it holds a cell shows what one of these cells shows, and any
    /// other position shows what it shows in `base`.
    pub closed spec fn tracks(&self, changed: Seq<Cell>, base: MemoryCellsService) -> bool {
        forall|row: int, col: int|
            0 <= row < self.num_rows && 0 <= col < self.num_cols ==> if has_cell_at(
                changed,
                row,
                col,
            ) {
                carries(changed, row, col, #[trigger] self.display_at(row, col))
            } else {
                self.display_at(row, col) == base.display_at(row, col)
            }
    }

    /// An empty grid of `num_rows` rows and `num_cols` columns.
    pub fn new(num_rows: i32, num_cols: i32) -> (s: MemoryCellsService)
        requires
            0 <= num_rows,
            0 <= num_cols,
            num_rows * num_cols <= usize::MAX,
        ensures
            s.wf(),
            s.spec_sheet().rows == num_rows,
            s.spec_sheet().cols == num_cols,
            s.spec_sheet().cells == Map::<(int, int), Seq<char>>::empty(),
            s.graph().edges() == Seq::<crate::service::formula_graph::Edge>::empty(),
    {
        let mut data: Vec<Cell> = Vec::new();
        let mut row: i32 = 0;
        while row < num_rows
            invariant
                0 <= row <= num_rows,
                0 <= num_cols,
                num_rows * num_cols <= usize::MAX,
                data@.len() == row * num_cols,
                forall|r: int, c: int|
                    0 <= r < row && 0 <= c < num_cols ==> (#[trigger] data@[r * num_cols + c]).row
                        == r && data@[r * num_cols + c].col == c && data@[r * num_cols
                        + c].value@.len() == 0,
            decreases num_rows - row,
        {
            let mut col: i32 = 0;
            while col < num_cols
                invariant
                    0 <= row < num_rows,
                    0 <= col <= num_cols,
                    num_rows * num_cols <= usize::MAX,
                    data@.len() == row * num_cols + col,
                    forall|r: int, c: int|
                        0 <= r < row && 0 <= c < num_cols ==> (#[trigger] data@[r * num_cols
                            + c]).row == r && data@[r * num_cols + c].col == c && data@[r
                            * num_cols + c].value@.len() == 0,
                    forall|c: int|
                        0 <= c < col ==> (#[trigger] data@[row * num_cols + c]).row == row
                            && data@[row * num_cols + c].col == c && data@[row * num_cols
                            + c].value@.len() == 0,
                decreases num_cols - col,
            {
                let ghost before = data@;
                data.push(Cell { row, col, value: String::new(), display_value: String::new() });
                proof {
                    assert forall|r: int, c: int| 0 <= r < row && 0 <= c < num_cols implies (
                    #[trigger] data@[r * num_cols + c]).row == r && data@[r * num_cols + c].col
                        == c && data@[r * num_cols + c].value@.len() == 0 by {
                        lemma_index_bound(r, c, row as int, num_cols as int);
                        assert(data@[r * num_cols + c] == before[r * num_cols + c]);
                    }
                    assert forall|c: int| 0 <= c < col + 1 implies (#[trigger] data@[row
                        * num_cols + c]).row == row && data@[row * num_cols + c].col == c
                        && data@[row * num_cols + c].value@.len() == 0 by {
                        if c < col {
                            assert(data@[row * num_cols + c] == before[row * num_cols + c]);
                        }
                    }
                }
                col = col + 1;
            }
            proof {
                assert((row + 1) * num_cols == row * num_cols + num_cols) by (nonlinear_arith);
            }
            row = row + 1;
        }
        let s = MemoryCellsService { num_cols, num_rows, data, formula_graph: FormulaGraph::new() };
        assert(s.spec_sheet().cells =~= Map::<(int, int), Seq<char>>::empty());
        s
    }

    /// The cell at a position, if the grid holds text there. A position
    /// outside the grid holds none.
    pub fn get_cell(&self, row: i32, col: i32) -> (r: Option<Cell>)
        requires
            self.wf(),
        ensures
            match self.spec_sheet().text_at(row as int, col as int) {
                Some(text) => r is Some && r->Some_0.value@ == text && r->Some_0.row == row
                    && r->Some_0.col == col && r->Some_0.display_value@ == self.display_at(
                    row as int,
                    col as int,
                ),
                None => r is None,
            },
    {
        if row < 0 || row >= self.num_rows || col < 0 || col >= self.num_cols {
            return None;
        }
        let idx = row_major_idx(row, col, self.num_rows, self.num_cols);
        if self.data[idx].value.as_str().is_empty() {
            None
        } else {
            Some(self.data[idx].duplicate())
        }
    }

    /// Stores `cell` at its position, text and shown text alike. The graph
    /// is not told: [`CellsService::insert_cells`] is the way to edit.
    pub fn set_cell(&mut self, cell: &Cell)
        requires
            old(self).wf(),
            0 <= cell.row < old(self).spec_sheet().rows,
            0 <= cell.col < old(self).spec_sheet().cols,
        ensures
            final(self).wf(),
            final(self).spec_sheet() == write_one(old(self).spec_sheet(), cell@),
            final(self).graph() == old(self).graph(),
            final(self).display_at(cell.row as int, cell.col as int) == cell.display_value@,
            forall|r: int, c: int|
                old(self).spec_sheet().in_grid(r, c) && (r != cell.row || c != cell.col)
                    ==> final(self).display_at(r, c) == old(self).display_at(r, c),
    {
        let idx = row_major_idx(cell.row, cell.col, self.num_rows, self.num_cols);
        let ghost before = self.data@;
        self.data[idx] = cell.duplicate();
        proof {
            let cols = self.num_cols as int;
            assert forall|r: int, c: int|
                0 <= r < self.num_rows && 0 <= c < self.num_cols && (r != cell.row || c
                    != cell.col) implies #[trigger] self.data@[r * cols + c] == before[r * cols
                + c] by {
                lemma_index_bound(r, c, self.num_rows as int, cols);
                if r * cols + c == idx {
                    lemma_index_unique(r, c, cell.row as int, cell.col as int, cols);
                }
            }
            assert(self.spec_sheet().cells =~= write_one(old(self).spec_sheet(), cell@).cells);
        }
    }

    /// Replaces the shown text of the cell at `loc` and returns the cell as
    /// it is stored then.
    fn show(&mut self, loc: CellLocation, shown: String) -> (cell: Cell)
        requires
            old(self).wf(),
            0 <= loc.row < old(self).spec_sheet().rows,
            0 <= loc.col < old(self).spec_sheet().cols,
        ensures
            final(self).wf(),
            final(self).spec_sheet() == old(self).spec_sheet(),
            final(self).graph() == old(self).graph(),
            cell.row == loc.row,
            cell.col == loc.col,
            cell.display_value@ == shown@,
            cell.value@ == text_or_empty(old(self).spec_sheet(), loc.row as int, loc.col as int),
            final(self).display_at(loc.row as int, loc.col as int) == shown@,
            forall|r: int, c: int|
                old(self).spec_sheet().in_grid(r, c) && (r != loc.row || c != loc.col)
                    ==> final(self).display_at(r, c) == old(self).display_at(r, c),
    {
        let idx = row_major_idx(loc.row, loc.col, self.num_rows, self.num_cols);
        let ghost before = self.data@;
        let stored = Cell {
            row: loc.row,
            col: loc.col,
            value: self.data[idx].value.clone(),
            display_value: shown,
        };
        let copy = stored.duplicate();
        self.data[idx] = stored;
        proof {
            let cols = self.num_cols as int;
            assert forall|r: int, c: int|
                0 <= r < self.num_rows && 0 <= c < self.num_cols && (r != loc.row || c
                    != loc.col) implies #[trigger] self.data@[r * cols + c] == before[r * cols
                + c] by {
                lemma_index_bound(r, c, self.num_rows as int, cols);
                if r * cols + c == idx {
                    lemma_index_unique(r, c, loc.row as int, loc.col as int, cols);
                }
            }
            assert(self.spec_sheet().cells =~= old(self).spec_sheet().cells);
            assert(copy.value@ =~= text_or_empty(
                old(self).spec_sheet(),
                loc.row as int,
                loc.col as int,
            ));
        }
        copy
    }

    /// The raw text stored at a position of the grid.
    fn text_of(&self, loc: CellLocation) -> (text: String)
        requires
            self.wf(),
            0 <= loc.row < self.spec_sheet().rows,
            0 <= loc.col < self.spec_sheet().cols,
        ensures
            text@ == text_or_empty(self.spec_sheet(), loc.row as int, loc.col as int),
    {
        let idx = row_major_idx(loc.row, loc.col, self.num_rows, self.num_cols);
        let text = self.data[idx].value.clone();
        assert(text@ =~= text_or_empty(self.spec_sheet(), loc.row as int, loc.col as int));
        text
    }

    /// Whether `loc` lies inside the grid.
    fn holds(&self, loc: CellLocation) -> (b: bool)
        ensures
            b == (0 <= loc.row < self.spec_sheet().rows && 0 <= loc.col < self.spec_sheet().cols),
    {
        0 <= loc.row && loc.row < self.num_rows && 0 <= loc.col && loc.col < self.num_cols
    }

    /// Stores `shown` as the text shown at `loc` and puts the cell at the
    /// end of `changed`.
    fn record(&mut self, loc: CellLocation, shown: String, changed: &mut Vec<Cell>, Ghost(base):
        Ghost<MemoryCellsService>)
        requires
            old(self).wf(),
            old(self).spec_sheet().in_grid(loc.row as int, loc.col as int),
            shown_right(old(changed)@, old(self).spec_sheet()),
            old(self).tracks(old(changed)@, base),
            shown@ == crate::parser::evaluator::display_text(
                text_or_empty(old(self).spec_sheet(), loc.row as int, loc.col as int),
                old(self).spec_sheet(),
            ) || shown@ == circular_display(),
        ensures
            final(self).wf(),
            final(self).spec_sheet() == old(self).spec_sheet(),
            final(self).graph() == old(self).graph(),
            shown_right(final(changed)@, final(self).spec_sheet()),
            final(self).tracks(final(changed)@, base),
            final(changed)@.len() == old(changed)@.len() + 1,
            grown(old(changed)@, final(changed)@),
            placed(final(changed)@.last(), loc, final(self).spec_sheet(), shown@),
    {
        let ghost before = changed@;
        let ghost earlier = *self;
        let cell = self.show(loc, shown);
        changed.push(cell);
        proof {
            lemma_pushed(before, cell);
            lemma_grown(before, changed@);
            assert forall|i: int| 0 <= i < before.len() implies #[trigger] changed@[i]
                == before[i] by {}
            assert(changed@[before.len() as int] == cell);
            assert forall|row: int, col: int|
                0 <= row < self.num_rows && 0 <= col < self.num_cols implies if has_cell_at(
                changed@,
                row,
                col,
            ) {
                carries(changed@, row, col, #[trigger] self.display_at(row, col))
            } else {
                self.display_at(row, col) == base.display_at(row, col)
            } by {
                if row == loc.row && col == loc.col {
                } else {
                    assert(self.display_at(row, col) == earlier.display_at(row, col));
                    assert(earlier.spec_sheet().in_grid(row, col));
                    if has_cell_at(before, row, col) {
                        assert(carries(before, row, col, earlier.display_at(row, col)));
                    }
                }
            }
        }
    }

    /// Recomputes the cell at `loc`: evaluates the text that the grid holds
    /// there and stores what it shows.
    fn recompute(&mut self, loc: CellLocation, changed: &mut Vec<Cell>, Ghost(base): Ghost<
        MemoryCellsService,
    >)
        requires
            old(self).wf(),
            old(self).spec_sheet().in_grid(loc.row as int, loc.col as int),
            shown_right(old(changed)@, old(self).spec_sheet()),
            old(self).tracks(old(changed)@, base),
        ensures
            final(self).wf(),
            final(self).spec_sheet() == old(self).spec_sheet(),
            final(self).graph() == old(self).graph(),
            shown_right(final(changed)@, final(self).spec_sheet()),
            final(self).tracks(final(changed)@, base),
            final(changed)@.len() == old(changed)@.len() + 1,
            grown(old(changed)@, final(changed)@),
            shows(final(changed)@.last(), loc, final(self).spec_sheet(), false),
    {
        let text = self.text_of(loc);
        let formula = parse(text.as_str());
        let shown = evaluate(formula, self);
        self.record(loc, shown, changed, Ghost(base));
    }

    /// Marks the cell at `loc` as a cell on a circular chain.
    fn mark_circular(&mut self, loc: CellLocation, changed: &mut Vec<Cell>, Ghost(base): Ghost<
        MemoryCellsService,
    >)
        requires
            old(self).wf(),
            old(self).spec_sheet().in_grid(loc.row as int, loc.col as int),
            shown_right(old(changed)@, old(self).spec_sheet()),
            old(self).tracks(old(changed)@, base),
        ensures
            final(self).wf(),
            final(self).spec_sheet() == old(self).spec_sheet(),
            final(self).graph() == old(self).graph(),
            shown_right(final(changed)@, final(self).spec_sheet()),
            final(self).tracks(final(changed)@, base),
            final(changed)@.len() == old(changed)@.len() + 1,
            grown(old(changed)@, final(changed)@),
            shows(final(changed)@.last(), loc, final(self).spec_sheet(), true),
    {
        self.record(loc, String::from_str("#CIRCULAR!"), changed, Ghost(base));
    }

    /// Tells the graph of the formula that the cell at `loc` holds now and
    /// recomputes the cells that the graph names: those to evaluate from the
    /// end of their list to its start, then the circular ones.
    fn edit(&mut self, loc: CellLocation, changed: &mut Vec<Cell>, Ghost(base): Ghost<
        MemoryCellsService,
    >)
        requires
            old(self).wf(),
            0 <= loc.row < old(self).spec_sheet().rows,
            0 <= loc.col < old(self).spec_sheet().cols,
            shown_right(old(changed)@, old(self).spec_sheet()),
            old(self).tracks(old(changed)@, base),
        ensures
            final(self).wf(),
            final(self).spec_sheet() == old(self).spec_sheet(),
            final(self).graph().edges() == edges_after_one(
                old(self).graph().edges(),
                old(self).spec_sheet(),
                loc,
            ),
            shown_right(final(changed)@, final(self).spec_sheet()),
            final(self).tracks(final(changed)@, base),
            grown(old(changed)@, final(changed)@),
            has_cell_at(final(changed)@, loc.row as int, loc.col as int),
            holds_readers_of(final(changed)@, loc, final(self).graph().edges()),
            exists|seeds: Seq<CellLocation>| #[trigger]
                step(
                    final(changed)@.skip(old(changed)@.len() as int),
                    seeds,
                    final(self).graph().edges(),
                    final(self).spec_sheet(),
                    loc,
                ),
    {
        let text = self.text_of(loc);
        let formula = parse(text.as_str());
        let mut refs = get_refs(&formula);
        let ghost read = refs@;
        let mut k: usize = 0;
        while k < refs.len()
            invariant
                k <= refs.len(),
                refs@.len() == read.len(),
                forall|j: int| 0 <= j < k ==> refs@[j] == read[j].clamped(self.num_rows),
                forall|j: int| k <= j < refs@.len() ==> refs@[j] == read[j],
            decreases refs.len() - k,
        {
            let mut range: CellRange = refs[k];
            range.clamp(self.num_rows);
            refs[k] = range;
            k = k + 1;
        }
        assert(refs@ =~= formula_ranges(self.spec_sheet(), loc.row as int, loc.col as int));
        let stored = Cell { row: loc.row, col: loc.col, value: text, display_value: String::new() };
        let ghost sheet = self.spec_sheet();
        let ghost old_edges = self.formula_graph.edges();
        let res = self.formula_graph.insert_cell(stored, refs);
        let ghost edges = self.formula_graph.edges();
        assert(self.tracks(changed@, base)) by {
            assert forall|row: int, col: int|
                0 <= row < self.num_rows && 0 <= col < self.num_cols implies if has_cell_at(
                changed@,
                row,
                col,
            ) {
                carries(changed@, row, col, #[trigger] self.display_at(row, col))
            } else {
                self.display_at(row, col) == base.display_at(row, col)
            } by {
                assert(self.display_at(row, col) == old(self).display_at(row, col));
            }
        }
        let ghost entry = changed@;
        let ghost first = res.inserted_cells@;
        let ghost circular = res.circular_cells@;
        let ghost seeds = choose|seeds: Seq<CellLocation>| #[trigger]
            crate::service::formula_graph::seeds_of(edges, seeds, loc) && (first, circular)
                == crate::service::formula_graph::schedule(edges, seeds, loc);
        proof {
            crate::service::formula_graph::lemma_edges_replaced(
                old_edges,
                loc,
                formula_ranges(sheet, loc.row as int, loc.col as int),
            );
            assert forall|i: int| 0 <= i < edges.len() implies 0 <= (#[trigger] edges[i]).cell.row
                < sheet.rows && 0 <= edges[i].cell.col < sheet.cols by {
                let e = edges[i];
                assert(edges.contains(e));
                if e.cell != loc {
                    assert(old_edges.contains(e));
                    let j = choose|j: int| 0 <= j < old_edges.len() && old_edges[j] == e;
                    assert(0 <= old_edges[j].cell.row < sheet.rows);
                }
            }
            crate::service::formula_graph::lemma_schedule(edges, seeds, loc);
            crate::service::formula_graph::lemma_schedule_members(edges, seeds, loc);
            assert forall|j: int| 0 <= j < first.len() implies sheet.in_grid(
                (#[trigger] first[j]).row as int,
                first[j].col as int,
            ) by {
                if first[j] != loc {
                    let i = choose|i: int|
                        0 <= i < edges.len() && (#[trigger] edges[i]).cell == first[j];
                    assert(0 <= edges[i].cell.row < sheet.rows);
                }
            }
            assert forall|j: int| 0 <= j < circular.len() implies sheet.in_grid(
                (#[trigger] circular[j]).row as int,
                circular[j].col as int,
            ) by {
                if circular[j] != loc {
                    let i = choose|i: int|
                        0 <= i < edges.len() && (#[trigger] edges[i]).cell == circular[j];
                    assert(0 <= edges[i].cell.row < sheet.rows);
                }
            }
        }
        let mut inserted = res.inserted_cells;
        while inserted.len() > 0
            invariant
                self.wf(),
                self.spec_sheet() == sheet,
                self.formula_graph.edges() == edges,
                shown_right(changed@, sheet),
                self.tracks(changed@, base),
                grown(entry, changed@),
                inserted@.len() <= first.len(),
                forall|j: int| 0 <= j < inserted@.len() ==> inserted@[j] == first[j],
                forall|j: int|
                    0 <= j < first.len() ==> sheet.in_grid(
                        (#[trigger] first[j]).row as int,
                        first[j].col as int,
                    ),
                changed@.len() == entry.len() + first.len() - inserted@.len(),
                forall|k: int|
                    0 <= k < first.len() - inserted@.len() ==> shows(
                        #[trigger] changed@[entry.len() + k],
                        first[first.len() - 1 - k],
                        sheet,
                        false,
                    ),
            decreases inserted.len(),
        {
            let ghost before = changed@;
            let next = inserted.pop().unwrap();
            assert(next == first[inserted@.len() as int]);
            self.recompute(next, changed, Ghost(base));
            proof {
                assert forall|k: int| 0 <= k < first.len() - inserted@.len() implies shows(
                    #[trigger] changed@[entry.len() + k],
                    first[first.len() - 1 - k],
                    sheet,
                    false,
                ) by {
                    if k < first.len() - inserted@.len() - 1 {
                        assert(changed@[entry.len() + k] == before[entry.len() + k]);
                    }
                }
            }
        }
        let marked = res.circular_cells;
        let mut m: usize = 0;
        while m < marked.len()
            invariant
                m <= marked.len(),
                marked@ == circular,
                self.wf(),
                self.spec_sheet() == sheet,
                self.formula_graph.edges() == edges,
                shown_right(changed@, sheet),
                self.tracks(changed@, base),
                grown(entry, changed@),
                forall|j: int|
                    0 <= j < circular.len() ==> sheet.in_grid(
                        (#[trigger] circular[j]).row as int,
                        circular[j].col as int,
                    ),
                changed@.len() == entry.len() + first.len() + m,
                forall|k: int|
                    0 <= k < first.len() ==> shows(
                        #[trigger] changed@[entry.len() + k],
                        first[first.len() - 1 - k],
                        sheet,
                        false,
                    ),
                forall|k: int|
                    0 <= k < m ==> shows(
                        #[trigger] changed@[entry.len() + first.len() + k],
                        circular[k],
                        sheet,
                        true,
                    ),
            decreases marked.len() - m,
        {
            let ghost before = changed@;
            let at: CellLocation = marked[m];
            self.mark_circular(at, changed, Ghost(base));
            proof {
                assert forall|k: int| 0 <= k < first.len() implies shows(
                    #[trigger] changed@[entry.len() + k],
                    first[first.len() - 1 - k],
                    sheet,
                    false,
                ) by {
                    assert(changed@[entry.len() + k] == before[entry.len() + k]);
                }
                assert forall|k: int| 0 <= k < m + 1 implies shows(
                    #[trigger] changed@[entry.len() + first.len() + k],
                    circular[k],
                    sheet,
                    true,
                ) by {
                    if k < m {
                        assert(changed@[entry.len() + first.len() + k] == before[entry.len()
                            + first.len() + k]);
                    }
                }
            }
            m = m + 1;
        }
        proof {
            let segment = changed@.skip(entry.len() as int);
            assert forall|k: int| 0 <= k < first.len() implies shows(
                #[trigger] segment[k],
                first[first.len() - 1 - k],
                sheet,
                false,
            ) by {
                assert(segment[k] == changed@[entry.len() + k]);
            }
            assert forall|k: int| 0 <= k < circular.len() implies shows(
                #[trigger] segment[first.len() + k],
                circular[k],
                sheet,
                true,
            ) by {
                assert(segment[first.len() + k] == changed@[entry.len() + first.len() + k]);
            }
            assert(recomputed(segment, first, circular, sheet));
            assert(step(segment, seeds, edges, sheet, loc));
            assert forall|c: CellLocation|
                first.contains(c) || circular.contains(c) implies has_cell_at(
                changed@,
                c.row as int,
                c.col as int,
            ) by {
                if first.contains(c) {
                    let j = choose|j: int| 0 <= j < first.len() && first[j] == c;
                    let k = first.len() - 1 - j;
                    assert(shows(changed@[entry.len() + k], first[first.len() - 1 - k], sheet, false));
                } else {
                    let j = choose|j: int| 0 <= j < circular.len() && circular[j] == c;
                    assert(shows(changed@[entry.len() + first.len() + j], circular[j], sheet, true));
                }
            }
            assert forall|c: CellLocation| #[trigger]
                crate::service::formula_graph::reads(edges, c, loc) implies has_cell_at(
                changed@,
                c.row as int,
                c.col as int,
            ) by {
                assert(seeds.contains(c));
                assert(first.contains(c) || circular.contains(c));
            }
            if !circular.contains(loc) {
                assert(first[first.len() - 1] == loc);
                assert(first.contains(loc));
            }
        }
    }


    /// Writes the raw text of `cells`, in order.
    fn write_all(&mut self, cells: &Vec<Cell>)
        requires
            old(self).wf(),
            all_inside(cells@, old(self).spec_sheet().rows, old(self).spec_sheet().cols),
        ensures
            final(self).wf(),
            final(self).graph() == old(self).graph(),
            final(self).spec_sheet() == written(old(self).spec_sheet(), cells@),
            final(self).spec_sheet().rows == old(self).spec_sheet().rows,
            final(self).spec_sheet().cols == old(self).spec_sheet().cols,
            forall|r: int, c: int|
                old(self).spec_sheet().in_grid(r, c) && !has_cell_at(cells@, r, c) ==> #[trigger]
                final(self).shows_as(*old(self), r, c),
    {
        let mut i: usize = 0;
        assert(cells@.take(0) =~= Seq::<Cell>::empty());
        while i < cells.len()
            invariant
                i <= cells.len(),
                self.wf(),
                self.graph() == old(self).graph(),
                self.spec_sheet().rows == old(self).spec_sheet().rows,
                self.spec_sheet().cols == old(self).spec_sheet().cols,
                all_inside(cells@, old(self).spec_sheet().rows, old(self).spec_sheet().cols),
                self.spec_sheet() == written(old(self).spec_sheet(), cells@.take(i as int)),
                forall|r: int, c: int|
                    old(self).spec_sheet().in_grid(r, c) && !has_cell_at(cells@, r, c)
                        ==> #[trigger] self.shows_as(*old(self), r, c),
            decreases cells.len() - i,
        {
            proof {
                assert(cells@.take(i + 1).drop_last() =~= cells@.take(i as int));
                assert(cells@.take(i + 1).last() == cells@[i as int]);
                assert(has_cell_at(cells@, cells@[i as int].row as int, cells@[i as int].col as int));
            }
            let ghost earlier = *self;
            self.set_cell(&cells[i]);
            proof {
                assert forall|r: int, c: int|
                    old(self).spec_sheet().in_grid(r, c) && !has_cell_at(
                        cells@,
                        r,
                        c,
                    ) implies #[trigger] self.shows_as(*old(self), r, c) by {
                    assert(earlier.shows_as(*old(self), r, c));
                    assert(earlier.spec_sheet().in_grid(r, c));
                    assert(self.display_at(r, c) == earlier.display_at(r, c));
                }
            }
            i = i + 1;
        }
        assert(cells@.take(cells.len() as int) =~= cells@);
    }

    /// The cells with text inside `r`, row by row.
    fn cells_in(&self, r: Rect) -> (cells: Vec<Cell>)
        requires
            self.wf(),
        ensures
            cells@.len() == self.spec_sheet().cells_of(r).len(),
            forall|i: int|
                0 <= i < cells@.len() ==> {
                    let cell = #[trigger] cells@[i];
                    &&& cell.row == self.spec_sheet().cells_of(r)[i].row
                    &&& cell.col == self.spec_sheet().cells_of(r)[i].col
                    &&& self.spec_sheet().text_at(cell.row as int, cell.col as int) == Some(
                        cell.value@,
                    )
                    &&& cell.display_value@ == self.display_at(cell.row as int, cell.col as int)
                },
    {
        let clamped = r.clamp(self.num_rows, self.num_cols);
        let mut result_cells: Vec<Cell> = Vec::new();
        let ghost sheet = self.spec_sheet();
        let ghost all = sheet.cells_of(r);
        let ghost mut done: Seq<crate::parser::ast::CellRef> = Seq::empty();
        let r1: i32 = clamped.stop_row - 1;
        let c0: i32 = clamped.start_col;
        let c1: i32 = clamped.stop_col - 1;
        let mut row: i32 = clamped.start_row;
        while row <= r1
            invariant
                self.wf(),
                sheet == self.spec_sheet(),
                0 <= clamped.start_row <= row,
                row <= r1 + 1 || row == clamped.start_row,
                r1 < self.num_rows,
                c1 < self.num_cols,
                0 <= c0,
                all == done + crate::parser::evaluator::cells_from(
                    row as int,
                    c0 as int,
                    r1 as int,
                    c0 as int,
                    c1 as int,
                    sheet,
                ),
                result_cells@.len() == done.len(),
                forall|i: int|
                    0 <= i < done.len() ==> {
                        let cell = #[trigger] result_cells@[i];
                        &&& cell.row == done[i].row
                        &&& cell.col == done[i].col
                        &&& sheet.text_at(cell.row as int, cell.col as int) == Some(cell.value@)
                        &&& cell.display_value@ == self.display_at(
                            cell.row as int,
                            cell.col as int,
                        )
                    },
            decreases r1 - row + 1,
        {
            let mut col: i32 = c0;
            while col <= c1
                invariant
                    self.wf(),
                    sheet == self.spec_sheet(),
                    0 <= row <= r1,
                    0 <= c0 <= col,
                    col <= c1 + 1 || col == c0,
                    r1 < self.num_rows,
                    c1 < self.num_cols,
                    all == done + crate::parser::evaluator::cells_from(
                        row as int,
                        col as int,
                        r1 as int,
                        c0 as int,
                        c1 as int,
                        sheet,
                    ),
                    result_cells@.len() == done.len(),
                    forall|i: int|
                        0 <= i < done.len() ==> {
                            let cell = #[trigger] result_cells@[i];
                            &&& cell.row == done[i].row
                            &&& cell.col == done[i].col
                            &&& sheet.text_at(cell.row as int, cell.col as int) == Some(cell.value@)
                            &&& cell.display_value@ == self.display_at(
                                cell.row as int,
                                cell.col as int,
                            )
                        },
                decreases c1 - col + 1,
            {
                match self.get_cell(row, col) {
                    Some(cell) => {
                        let ghost before = result_cells@;
                        result_cells.push(cell);
                        proof {
                            let at = crate::parser::ast::CellRef { col, row };
                            let rest = crate::parser::evaluator::cells_from(
                                row as int,
                                col + 1,
                                r1 as int,
                                c0 as int,
                                c1 as int,
                                sheet,
                            );
                            assert(done + (seq![at] + rest) =~= done.push(at) + rest);
                            assert forall|i: int| 0 <= i < done.len() implies (
                            #[trigger] result_cells@[i]) == before[i] by {}
                            done = done.push(at);
                        }
                    },
                    None => {},
                }
                col = col + 1;
            }
            row = row + 1;
        }
        proof {
            assert(crate::parser::evaluator::cells_from(
                row as int,
                c0 as int,
                r1 as int,
                c0 as int,
                c1 as int,
                sheet,
            ) =~= Seq::empty());
            assert(all =~= done);
        }
        result_cells
    }
}

impl EvalContext for MemoryCellsService {
    open spec fn valid(&self) -> bool {
        self.wf()
    }

    open spec fn sheet(&self) -> crate::models::context::Sheet {
        self.spec_sheet()
    }

    fn get_cell(&self, row: i32, col: i32) -> (r: Option<Cell>) {
        self.get_cell(row, col)
    }

    fn get_cells(&self, rect: Rect) -> (cells: Vec<Cell>) {
        self.cells_in(rect)
    }

    fn num_rows(&self) -> (r: i32) {
        self.num_rows
    }

    fn num_cols(&self) -> (r: i32) {
        self.num_cols
    }
}

/// A reader of a position after an edit of another one either is the edited
/// cell or was a reader before.
proof fn lemma_readers_after(
    edges: Seq<crate::service::formula_graph::Edge>,
    sheet: crate::models::context::Sheet,
    loc: CellLocation,
    c: CellLocation,
    target: CellLocation,
)
    requires
        crate::service::formula_graph::reads(edges_after_one(edges, sheet, loc), c, target),
        c != loc,
    ensures
        crate::service::formula_graph::reads(edges, c, target),
{
    let after = edges_after_one(edges, sheet, loc);
    crate::service::formula_graph::lemma_edges_replaced(
        edges,
        loc,
        formula_ranges(sheet, loc.row as int, loc.col as int),
    );
    let i = choose|i: int|
        0 <= i < after.len() && (#[trigger] after[i]).cell == c && after[i].range.contains(
            target.row as int,
            target.col as int,
        );
    let e = after[i];
    assert(after.contains(e));
    assert(edges.contains(e));
    let j = choose|j: int| 0 <= j < edges.len() && edges[j] == e;
    assert(edges[j].cell == c);
}

impl CellsService for MemoryCellsService {
    open spec fn consistent(&self) -> bool {
        self.wf()
    }

    open spec fn grid(&self) -> crate::models::context::Sheet {
        self.spec_sheet()
    }

    open spec fn shown_at(&self, row: int, col: int) -> Seq<char> {
        self.display_at(row, col)
    }

    open spec fn edges(&self) -> Seq<crate::service::formula_graph::Edge> {
        self.graph().edges()
    }

    fn insert_cells(&mut self, cells: &Vec<Cell>) -> (r: Result<Vec<Cell>, Error>) {
        let mut k: usize = 0;
        while k < cells.len()
            invariant
                k <= cells.len(),
                *self == *old(self),
                self.wf(),
                forall|i: int|
                    0 <= i < k ==> 0 <= (#[trigger] cells@[i]).row < self.num_rows && 0
                        <= cells@[i].col < self.num_cols,
            decreases cells.len() - k,
        {
            if !self.holds(cells[k].loc()) {
                return Err(Error::new("cell lies outside the grid"));
            }
            k = k + 1;
        }
        self.write_all(cells);
        let mut changed: Vec<Cell> = Vec::new();
        let ghost sheet = self.spec_sheet();
        let ghost base = *self;
        let ghost first_edges = self.formula_graph.edges();
        let mut i: usize = 0;
        assert(cells@.take(0) =~= Seq::<Cell>::empty());
        while i < cells.len()
            invariant
                i <= cells.len(),
                self.wf(),
                self.spec_sheet() == sheet,
                sheet.rows == self.num_rows,
                sheet.cols == self.num_cols,
                all_inside(cells@, sheet.rows, sheet.cols),
                shown_right(changed@, sheet),
                self.tracks(changed@, base),
                holds_each(changed@, cells@.take(i as int)),
                holds_readers(changed@, cells@.take(i as int), self.formula_graph.edges()),
                self.formula_graph.edges() == edges_after(
                    first_edges,
                    sheet,
                    cells@.take(i as int),
                ),
                explains(changed@, first_edges, sheet, cells@.take(i as int)),
            decreases cells.len() - i,
        {
            let loc = cells[i].loc();
            let ghost before = changed@;
            let ghost edges_before = self.formula_graph.edges();
            self.edit(loc, &mut changed, Ghost(base));
            proof {
                let done = cells@.take(i as int);
                let more = cells@.take(i + 1);
                let edges_now = self.formula_graph.edges();
                assert(more.drop_last() =~= done);
                assert(more.last() == cells@[i as int]);
                lemma_grown(before, changed@);
                let n = changed@.len() - before.len();
                let seeds = choose|seeds: Seq<CellLocation>| #[trigger]
                    step(changed@.skip(before.len() as int), seeds, edges_now, sheet, loc);
                assert(changed@.take(changed@.len() - n) =~= before);
                assert(last_step(changed@, n, seeds, first_edges, sheet, more));
                assert forall|j: int| 0 <= j < more.len() implies has_cell_at(
                    changed@,
                    (#[trigger] more[j]).row as int,
                    more[j].col as int,
                ) by {
                    if j < i {
                        assert(done[j] == more[j]);
                    }
                }
                assert forall|j: int| 0 <= j < more.len() implies holds_readers_of(
                    changed@,
                    (#[trigger] more[j]).spec_loc(),
                    edges_now,
                ) by {
                    if j < i {
                        assert(done[j] == more[j]);
                        let target = more[j].spec_loc();
                        assert(holds_readers_of(before, done[j].spec_loc(), edges_before));
                        assert forall|c: CellLocation| #[trigger]
                            crate::service::formula_graph::reads(
                                edges_now,
                                c,
                                target,
                            ) implies has_cell_at(changed@, c.row as int, c.col as int) by {
                            if c != loc {
                                lemma_readers_after(edges_before, sheet, loc, c, target);
                                assert(has_cell_at(before, c.row as int, c.col as int));
                            }
                        }
                    }
                }
            }
            i = i + 1;
        }
        proof {
            assert(cells@.take(cells.len() as int) =~= cells@);
            assert forall|row: int, col: int| self.spec_sheet().in_grid(row, col) implies if has_cell_at(
                changed@,
                row,
                col,
            ) {
                carries(changed@, row, col, #[trigger] self.display_at(row, col))
            } else {
                self.display_at(row, col) == old(self).display_at(row, col)
            } by {
                assert(0 <= row < self.num_rows && 0 <= col < self.num_cols);
                let shown = self.display_at(row, col);
                if !has_cell_at(changed@, row, col) {
                    if has_cell_at(cells@, row, col) {
                        let j = choose|j: int|
                            0 <= j < cells@.len() && (#[trigger] cells@[j]).row == row
                                && cells@[j].col == col;
                        assert(has_cell_at(changed@, cells@[j].row as int, cells@[j].col as int));
                    }
                    assert(base.shows_as(*old(self), row, col));
                    assert(shown == base.display_at(row, col));
                }
            }
        }
        Ok(changed)
    }

    fn get_cells(&self, r: Rect) -> (cells: Vec<Cell>) {
        self.cells_in(r)
    }
}

} // verus!
