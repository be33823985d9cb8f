use spreadsheet_service::models::cell::Cell;
use spreadsheet_service::models::cell::CellLocation;
use spreadsheet_service::models::cell::CellRange;
use spreadsheet_service::service::formula_graph::FormulaGraph;

fn cell(row: i32, col: i32, value: &str) -> Cell {
    Cell {
        row,
        col,
        value: value.to_string(),
        display_value: String::new(),
    }
}

fn at(row: i32, col: i32) -> CellLocation {
    CellLocation { row, col }
}

fn range(start_row: i32, start_col: i32, stop_row: i32, stop_col: i32) -> CellRange {
    CellRange {
        start_row,
        start_col,
        stop_row,
        stop_col,
    }
}

#[test]
fn test_insert_cell() {
    let mut fg = FormulaGraph::new();

    // Simple dependency
    // A1 --> B1
    let a1 = Cell {
        row: 0,
        col: 0,
        value: "=B1".to_string(),
        display_value: "0".to_string(),
    };
    let b1 = Cell {
        row: 0,
        col: 1,
        value: "10".to_string(),
        display_value: "10".to_string(),
    };
    let mut to_eval = fg.insert_cell(b1.clone(), vec![]);
    assert_eq!(vec![b1.loc()], to_eval.inserted_cells);

    to_eval = fg.insert_cell(a1.clone(), vec![b1.to_range()]);
    assert_eq!(vec![a1.loc()], to_eval.inserted_cells);

    to_eval = fg.insert_cell(b1.clone(), vec![]);
    assert_eq!(vec![a1.loc(), b1.loc()], to_eval.inserted_cells);

    // Add a third dependency, A1 --> B1 --> C1
    let c1 = Cell {
        row: 0,
        col: 2,
        value: "20".to_string(),
        display_value: "20".to_string(),
    };

    to_eval = fg.insert_cell(c1.clone(), vec![]);
    assert_eq!(vec![c1.loc()], to_eval.inserted_cells);

    // Add the dependency on cell C1. A1 should be recomputed
    to_eval = fg.insert_cell(b1.clone(), vec![c1.to_range()]);
    assert_eq!(vec![a1.loc(), b1.loc()], to_eval.inserted_cells);

    // Modify C1. B1 and A1 should be recomputed in that order
    to_eval = fg.insert_cell(c1.clone(), vec![]);
    assert_eq!(vec![a1.loc(), b1.loc(), c1.loc()], to_eval.inserted_cells);
    assert_eq!(Vec::<CellLocation>::new(), to_eval.circular_cells);
}

#[test]
fn test_range_ref() {
    let mut fg = FormulaGraph::new();

    // Range dependency
    // D1 --> A1:A2
    let a1 = Cell {
        row: 0,
        col: 3,
        value: "=SUM(A1:A2)".to_string(),
        display_value: "0".to_string(),
    };
    let to_eval = fg.insert_cell(
        a1.clone(),
        vec![CellRange {
            start_row: 0,
            start_col: 0,
            stop_row: 2,
            stop_col: 1,
        }],
    );
    assert_eq!(vec![CellLocation { row: 0, col: 3 }], to_eval.inserted_cells);

    // Update the first cell in the range reference
    let to_eval = fg.insert_cell(
        Cell {
            row: 0,
            col: 0,
            value: "".to_string(),
            display_value: "".to_string(),
        },
        vec![],
    );
    assert_eq!(
        vec![CellLocation { row: 0, col: 3 }, CellLocation { row: 0, col: 0 }],
        to_eval.inserted_cells
    );

    // Update the second cell in the range reference
    let to_eval = fg.insert_cell(
        Cell {
            row: 1,
            col: 0,
            value: "".to_string(),
            display_value: "".to_string(),
        },
        vec![],
    );
    assert_eq!(
        vec![CellLocation { row: 0, col: 3 }, CellLocation { row: 1, col: 0 }],
        to_eval.inserted_cells
    );

    // A cell below the range is not read.
    let to_eval = fg.insert_cell(cell(2, 0, ""), vec![]);
    assert_eq!(vec![at(2, 0)], to_eval.inserted_cells);
    // Nor is a cell beside it.
    let to_eval = fg.insert_cell(cell(0, 1, ""), vec![]);
    assert_eq!(vec![at(0, 1)], to_eval.inserted_cells);
}

#[test]
fn a_cell_that_nobody_reads_is_alone() {
    let mut fg = FormulaGraph::new();
    let res = fg.insert_cell(cell(3, 4, "x"), vec![]);
    assert_eq!(vec![at(3, 4)], res.inserted_cells);
    assert_eq!(Vec::<CellLocation>::new(), res.circular_cells);
}

#[test]
fn self_reference_is_circular() {
    let mut fg = FormulaGraph::new();
    let a1 = cell(0, 0, "=A1");
    let res = fg.insert_cell(a1.clone(), vec![a1.to_range()]);
    assert_eq!(Vec::<CellLocation>::new(), res.inserted_cells);
    assert_eq!(vec![at(0, 0)], res.circular_cells);

    // A range over the cell itself is circular too.
    let mut fg = FormulaGraph::new();
    let res = fg.insert_cell(cell(1, 0, "=SUM(A1:A3)"), vec![range(0, 0, 3, 1)]);
    assert_eq!(Vec::<CellLocation>::new(), res.inserted_cells);
    assert_eq!(vec![at(1, 0)], res.circular_cells);
}

#[test]
fn a_circle_of_two() {
    let mut fg = FormulaGraph::new();
    let a1 = cell(0, 0, "=B1");
    let b1 = cell(0, 1, "=A1");
    let res = fg.insert_cell(a1.clone(), vec![b1.to_range()]);
    assert_eq!(vec![at(0, 0)], res.inserted_cells);
    let res = fg.insert_cell(b1.clone(), vec![a1.to_range()]);
    assert_eq!(Vec::<CellLocation>::new(), res.inserted_cells);
    assert_eq!(vec![at(0, 1), at(0, 0)], res.circular_cells);

    // Breaking the circle clears it.
    let res = fg.insert_cell(b1.clone(), vec![]);
    assert_eq!(vec![at(0, 0), at(0, 1)], res.inserted_cells);
    assert_eq!(Vec::<CellLocation>::new(), res.circular_cells);
}

#[test]
fn a_circle_marks_the_whole_path() {
    let mut fg = FormulaGraph::new();
    let a1 = cell(0, 0, "=B1");
    let b1 = cell(0, 1, "=A1");
    let c1 = cell(0, 2, "=D1");
    let d1 = cell(0, 3, "1");
    fg.insert_cell(c1.clone(), vec![d1.to_range()]);
    fg.insert_cell(a1.clone(), vec![b1.to_range(), c1.to_range()]);
    fg.insert_cell(b1.clone(), vec![a1.to_range()]);
    // D1 is read by C1, C1 by A1, and A1 and B1 read each other: the path
    // from D1 runs into the circle, and all of it is marked.
    let res = fg.insert_cell(d1.clone(), vec![]);
    assert_eq!(Vec::<CellLocation>::new(), res.inserted_cells);
    assert_eq!(vec![at(0, 3), at(0, 2), at(0, 0), at(0, 1)], res.circular_cells);
}

#[test]
fn a_cell_beside_a_circle_is_evaluated() {
    let mut fg = FormulaGraph::new();
    let a1 = cell(0, 0, "=A1");
    let b1 = cell(0, 1, "=C1");
    let c1 = cell(0, 2, "1");
    fg.insert_cell(a1.clone(), vec![a1.to_range()]);
    fg.insert_cell(b1.clone(), vec![c1.to_range()]);
    let res = fg.insert_cell(c1.clone(), vec![]);
    assert_eq!(vec![at(0, 1), at(0, 2)], res.inserted_cells);
    assert_eq!(Vec::<CellLocation>::new(), res.circular_cells);
}

#[test]
fn edges_of_the_earlier_formula_are_gone() {
    let mut fg = FormulaGraph::new();
    let a1 = cell(0, 0, "=B1");
    let b1 = cell(0, 1, "1");
    let c1 = cell(0, 2, "2");
    fg.insert_cell(a1.clone(), vec![b1.to_range()]);
    assert_eq!(
        vec![at(0, 0), at(0, 1)],
        fg.insert_cell(b1.clone(), vec![]).inserted_cells
    );
    // A1 now reads C1 and no longer B1.
    fg.insert_cell(a1.clone(), vec![c1.to_range()]);
    assert_eq!(vec![at(0, 1)], fg.insert_cell(b1.clone(), vec![]).inserted_cells);
    assert_eq!(
        vec![at(0, 0), at(0, 2)],
        fg.insert_cell(c1.clone(), vec![]).inserted_cells
    );
    // A1 reads nothing any more.
    fg.insert_cell(a1.clone(), vec![]);
    assert_eq!(vec![at(0, 2)], fg.insert_cell(c1.clone(), vec![]).inserted_cells);
}

#[test]
fn a_reader_is_a_seed_once() {
    let mut fg = FormulaGraph::new();
    // D1 reads A1:A3 and A2, and A2 twice.
    fg.insert_cell(
        cell(0, 3, "=SUM(A1:A3)+A2+A2"),
        vec![range(0, 0, 3, 1), range(1, 0, 2, 1), range(1, 0, 2, 1)],
    );
    let res = fg.insert_cell(cell(1, 0, "5"), vec![]);
    assert_eq!(vec![at(0, 3), at(1, 0)], res.inserted_cells);
}

#[test]
fn several_readers_come_before_the_cell() {
    let mut fg = FormulaGraph::new();
    let a1 = cell(0, 0, "1");
    for row in 1..40 {
        fg.insert_cell(cell(row, 1, "=A1"), vec![a1.to_range()]);
    }
    let res = fg.insert_cell(a1.clone(), vec![]);
    assert_eq!(40, res.inserted_cells.len());
    assert_eq!(Some(&at(0, 0)), res.inserted_cells.last());
    let mut readers: Vec<CellLocation> = res.inserted_cells[..39].to_vec();
    readers.sort();
    assert_eq!((1..40).map(|row| at(row, 1)).collect::<Vec<_>>(), readers);

    // Taking most of them out again leaves the others.
    for row in 1..38 {
        fg.insert_cell(cell(row, 1, ""), vec![]);
    }
    let res = fg.insert_cell(a1.clone(), vec![]);
    let mut readers: Vec<CellLocation> = res.inserted_cells.clone();
    readers.sort();
    assert_eq!(vec![at(0, 0), at(38, 1), at(39, 1)], readers);
}

#[test]
fn ranges_with_nothing_inside() {
    let mut fg = FormulaGraph::new();
    fg.insert_cell(
        cell(5, 5, "x"),
        vec![range(3, 0, 3, 7), range(0, 4, 9, 4), range(4, 4, 2, 2), range(0, 0, -1, 3)],
    );
    for (row, col) in [(3, 0), (0, 4), (3, 3), (0, 0), (2, 2), (4, 4)] {
        let res = fg.insert_cell(cell(row, col, "1"), vec![]);
        assert_eq!(vec![at(row, col)], res.inserted_cells);
    }
}

#[test]
fn positions_beyond_the_index_window() {
    let mut fg = FormulaGraph::new();
    // One cell far out reads a range that is partly inside the window of
    // the index and partly outside, and one more range outside.
    let far = cell(20000, 3, "=SUM(A16000:B17000)+C30000");
    fg.insert_cell(
        far.clone(),
        vec![range(15999, 0, 17000, 2), range(29999, 2, 30000, 3)],
    );
    for (row, col, read) in [
        (15999, 0, true),
        (16383, 1, true),
        (16384, 1, true),
        (16999, 0, true),
        (17000, 0, false),
        (15998, 0, false),
        (16384, 2, false),
        (29999, 2, true),
        (29999, 3, false),
        (2147483647, 2147483647, false),
        (-1, 0, false),
    ] {
        let res = fg.insert_cell(cell(row, col, "1"), vec![]);
        if read {
            assert_eq!(vec![at(20000, 3), at(row, col)], res.inserted_cells);
        } else {
            assert_eq!(vec![at(row, col)], res.inserted_cells);
        }
    }
    // The range from before the grid's first row and column.
    fg.insert_cell(far.clone(), vec![range(-5, -5, 2, 2)]);
    assert_eq!(
        vec![at(20000, 3), at(0, 0)],
        fg.insert_cell(cell(0, 0, "1"), vec![]).inserted_cells
    );
    assert_eq!(
        vec![at(20000, 3), at(1, 1)],
        fg.insert_cell(cell(1, 1, "1"), vec![]).inserted_cells
    );
    assert_eq!(
        vec![at(2, 2)],
        fg.insert_cell(cell(2, 2, "1"), vec![]).inserted_cells
    );
    assert_eq!(
        vec![at(15999, 0)],
        fg.insert_cell(cell(15999, 0, "1"), vec![]).inserted_cells
    );
}

#[test]
fn a_chain_is_walked_to_its_end() {
    let mut fg = FormulaGraph::new();
    // Row 0 holds a value; each further row reads the row above.
    for row in 1..30 {
        fg.insert_cell(cell(row, 0, "=up"), vec![range(row - 1, 0, row, 1)]);
    }
    let res = fg.insert_cell(cell(0, 0, "1"), vec![]);
    let expected: Vec<CellLocation> = (0..30).rev().map(|row| at(row, 0)).collect();
    assert_eq!(expected, res.inserted_cells);
}

#[test]
fn a_reader_of_a_range_is_reached_through_a_cell_of_the_range() {
    let mut fg = FormulaGraph::new();
    // D1 reads A1:A3, A2 reads B1.
    fg.insert_cell(cell(0, 3, "=SUM(A1:A3)"), vec![range(0, 0, 3, 1)]);
    fg.insert_cell(cell(1, 0, "=B1"), vec![range(0, 1, 1, 2)]);
    let res = fg.insert_cell(cell(0, 1, "10"), vec![]);
    assert_eq!(vec![at(0, 3), at(1, 0), at(0, 1)], res.inserted_cells);
    assert_eq!(Vec::<CellLocation>::new(), res.circular_cells);

    // E1 reads C1:D9, and so D1; it is reached through A2 and D1.
    fg.insert_cell(cell(0, 4, "=SUM(C1:D9)"), vec![range(0, 2, 9, 4)]);
    let res = fg.insert_cell(cell(0, 1, "11"), vec![]);
    assert_eq!(vec![at(0, 4), at(0, 3), at(1, 0), at(0, 1)], res.inserted_cells);

    // A circle through a range: D1 lies in the range that A2 now reads.
    // E1 reads D1 and is on no circle.
    let res = fg.insert_cell(cell(1, 0, "=SUM(B1:D1)"), vec![range(0, 1, 1, 4)]);
    assert_eq!(vec![at(0, 4)], res.inserted_cells);
    assert_eq!(vec![at(1, 0), at(0, 3)], res.circular_cells);
}
