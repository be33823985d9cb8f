use spreadsheet_service::models::cell::Cell;
use spreadsheet_service::models::cell::CellLocation;
use spreadsheet_service::models::cell::CellRange;
use spreadsheet_service::models::rect::width;
use spreadsheet_service::models::rect::Rect;
use spreadsheet_service::parser::parser::Error;
use spreadsheet_service::service::service::CellsService;
use spreadsheet_service::service::service::MemoryCellsService;

fn cell(row: i32, col: i32, value: &str) -> Cell {
    Cell::new(row, col, value.to_string())
}

fn stored(row: i32, col: i32, value: &str, shown: &str) -> Cell {
    Cell {
        row,
        col,
        value: value.to_string(),
        display_value: shown.to_string(),
    }
}

fn everything() -> Rect {
    Rect {
        start_row: 0,
        start_col: 0,
        stop_row: 50,
        stop_col: 26,
    }
}

// What the cell at a position shows.
fn shown(grid: &MemoryCellsService, row: i32, col: i32) -> String {
    grid.get_cell(row, col).unwrap().display_value
}

#[test]
fn a_reader_is_recomputed_after_its_source() {
    let mut grid = MemoryCellsService::new(50, 26);
    let first = grid.insert_cells(&vec![cell(0, 0, "=B1")]).unwrap();
    assert_eq!(vec![stored(0, 0, "=B1", "")], first);

    let changed = grid.insert_cells(&vec![cell(0, 1, "10")]).unwrap();
    assert_eq!(
        vec![stored(0, 1, "10", "10"), stored(0, 0, "=B1", "10")],
        changed
    );
    assert_eq!("10", shown(&grid, 0, 0));
}

#[test]
fn a_chain_is_recomputed_from_the_edit_outwards() {
    let mut grid = MemoryCellsService::new(50, 26);
    grid.insert_cells(&vec![cell(0, 0, "=B1+1"), cell(0, 1, "=C1*2")]).unwrap();
    let changed = grid.insert_cells(&vec![cell(0, 2, "5")]).unwrap();
    assert_eq!(
        vec![
            stored(0, 2, "5", "5"),
            stored(0, 1, "=C1*2", "10"),
            stored(0, 0, "=B1+1", "11"),
        ],
        changed
    );
}

#[test]
fn a_cell_that_reads_itself() {
    let mut grid = MemoryCellsService::new(50, 26);
    let changed = grid.insert_cells(&vec![cell(0, 0, "=A1")]).unwrap();
    assert_eq!(vec![stored(0, 0, "=A1", "#CIRCULAR!")], changed);
    assert_eq!("#CIRCULAR!", shown(&grid, 0, 0));

    // Two cells that read each other.
    let changed = grid
        .insert_cells(&vec![cell(1, 0, "=B2"), cell(1, 1, "=A2+1")])
        .unwrap();
    // A2 is evaluated before the graph knows of B2's formula; the path of
    // that evaluation closes. Then the graph finds the circle.
    assert_eq!(
        vec![
            stored(1, 0, "=B2", "#CIRCULAR"),
            stored(1, 1, "=A2+1", "#CIRCULAR!"),
            stored(1, 0, "=B2", "#CIRCULAR!"),
        ],
        changed
    );
    assert_eq!("#CIRCULAR!", shown(&grid, 1, 0));
    assert_eq!("#CIRCULAR!", shown(&grid, 1, 1));
    // The circle is broken again.
    let changed = grid.insert_cells(&vec![cell(1, 1, "4")]).unwrap();
    assert_eq!(
        vec![stored(1, 1, "4", "4"), stored(1, 0, "=B2", "4")],
        changed
    );
}

#[test]
fn a_sum_over_a_range_follows_its_cells() {
    let mut grid = MemoryCellsService::new(50, 26);
    grid.insert_cells(&vec![cell(0, 0, "1"), cell(1, 0, "2"), cell(2, 0, "3")])
        .unwrap();
    let changed = grid.insert_cells(&vec![cell(0, 3, "=SUM(A1:A3)")]).unwrap();
    assert_eq!(vec![stored(0, 3, "=SUM(A1:A3)", "6")], changed);

    let changed = grid.insert_cells(&vec![cell(1, 0, "20")]).unwrap();
    assert_eq!(
        vec![stored(1, 0, "20", "20"), stored(0, 3, "=SUM(A1:A3)", "24")],
        changed
    );
    assert_eq!("24", shown(&grid, 0, 3));

    // A4 is outside the range.
    let changed = grid.insert_cells(&vec![cell(3, 0, "100")]).unwrap();
    assert_eq!(vec![stored(3, 0, "100", "100")], changed);
}

#[test]
fn an_open_range_reaches_the_last_row() {
    let mut grid = MemoryCellsService::new(50, 26);
    grid.insert_cells(&vec![cell(0, 1, "=SUM(A:A)"), cell(0, 2, "=SUM(A2:A)")])
        .unwrap();
    let changed = grid.insert_cells(&vec![cell(49, 0, "7")]).unwrap();
    assert_eq!(3, changed.len());
    assert_eq!(stored(49, 0, "7", "7"), changed[0]);
    assert!(changed.contains(&stored(0, 1, "=SUM(A:A)", "7")));
    assert!(changed.contains(&stored(0, 2, "=SUM(A2:A)", "7")));
    let changed = grid.insert_cells(&vec![cell(0, 0, "1")]).unwrap();
    assert_eq!(
        vec![stored(0, 0, "1", "1"), stored(0, 1, "=SUM(A:A)", "8")],
        changed
    );
}

#[test]
fn a_dropped_reference_is_no_longer_followed() {
    let mut grid = MemoryCellsService::new(50, 26);
    grid.insert_cells(&vec![cell(0, 1, "1"), cell(0, 0, "=B1")]).unwrap();
    assert_eq!(2, grid.insert_cells(&vec![cell(0, 1, "2")]).unwrap().len());
    // A1 stops reading B1.
    grid.insert_cells(&vec![cell(0, 0, "5")]).unwrap();
    let changed = grid.insert_cells(&vec![cell(0, 1, "3")]).unwrap();
    assert_eq!(vec![stored(0, 1, "3", "3")], changed);
    assert_eq!("5", shown(&grid, 0, 0));
}

#[test]
fn references_outside_the_grid_show_it() {
    let mut grid = MemoryCellsService::new(50, 26);
    let changed = grid
        .insert_cells(&vec![cell(0, 0, "=AA1"), cell(1, 0, "=A51"), cell(2, 0, "=Z50")])
        .unwrap();
    assert_eq!(
        vec![
            stored(0, 0, "=AA1", "#REF"),
            stored(1, 0, "=A51", "#REF"),
            stored(2, 0, "=Z50", ""),
        ],
        changed
    );
}

#[test]
fn a_malformed_formula_is_stored_and_shows_the_message() {
    let mut grid = MemoryCellsService::new(50, 26);
    let changed = grid
        .insert_cells(&vec![cell(0, 0, "=(1+2"), cell(0, 1, "=1 $ 2"), cell(0, 2, "=A1")])
        .unwrap();
    assert_eq!(
        vec![
            stored(0, 0, "=(1+2", "No matching ')' found for '('"),
            stored(0, 1, "=1 $ 2", "unrecognized input"),
            stored(0, 2, "=A1", "No matching ')' found for '('"),
        ],
        changed
    );
}

#[test]
fn a_cell_outside_the_grid_fails_the_whole_insert() {
    let mut grid = MemoryCellsService::new(50, 26);
    grid.insert_cells(&vec![cell(0, 0, "1")]).unwrap();
    for (row, col) in [(50, 0), (0, 26), (-1, 0), (0, -1), (2147483647, 2147483647)] {
        let res = grid.insert_cells(&vec![cell(0, 0, "2"), cell(row, col, "3")]);
        assert_eq!(Err(Error::new("cell lies outside the grid")), res);
    }
    assert_eq!(vec![stored(0, 0, "1", "1")], grid.get_cells(everything()));
    assert_eq!(Ok(vec![]), grid.insert_cells(&vec![]));
}

#[test]
fn an_empty_text_clears_a_cell() {
    let mut grid = MemoryCellsService::new(50, 26);
    grid.insert_cells(&vec![cell(0, 0, "4"), cell(0, 1, "=A1+1")]).unwrap();
    let changed = grid.insert_cells(&vec![cell(0, 0, "")]).unwrap();
    assert_eq!(
        vec![stored(0, 0, "", ""), stored(0, 1, "=A1+1", "1")],
        changed
    );
    assert_eq!(None, grid.get_cell(0, 0));
    assert_eq!(vec![stored(0, 1, "=A1+1", "1")], grid.get_cells(everything()));
}

#[test]
fn the_last_text_of_a_batch_wins() {
    let mut grid = MemoryCellsService::new(50, 26);
    let changed = grid
        .insert_cells(&vec![cell(0, 0, "1"), cell(0, 0, "=1+1")])
        .unwrap();
    assert_eq!(
        vec![stored(0, 0, "=1+1", "2"), stored(0, 0, "=1+1", "2")],
        changed
    );
}

#[test]
fn reading_a_rectangle() {
    let mut grid = MemoryCellsService::new(50, 26);
    grid.insert_cells(&vec![
        cell(0, 0, "a"),
        cell(0, 2, "=1+1"),
        cell(1, 1, "b"),
        cell(49, 25, "z"),
    ])
    .unwrap();
    assert_eq!(
        vec![
            stored(0, 0, "a", "a"),
            stored(0, 2, "=1+1", "2"),
            stored(1, 1, "b", "b"),
            stored(49, 25, "z", "z"),
        ],
        grid.get_cells(everything())
    );
    assert_eq!(
        vec![stored(0, 2, "=1+1", "2"), stored(1, 1, "b", "b")],
        grid.get_cells(Rect {
            start_row: 0,
            start_col: 1,
            stop_row: 2,
            stop_col: 3,
        })
    );
    // The stop bounds are not part of the rectangle.
    assert_eq!(
        vec![stored(0, 0, "a", "a")],
        grid.get_cells(Rect {
            start_row: 0,
            start_col: 0,
            stop_row: 1,
            stop_col: 2,
        })
    );
    // A rectangle is limited to the grid.
    assert_eq!(
        4,
        grid.get_cells(Rect {
            start_row: -10,
            start_col: -10,
            stop_row: 1000,
            stop_col: 1000,
        })
        .len()
    );
    assert_eq!(
        Vec::<Cell>::new(),
        grid.get_cells(Rect {
            start_row: 5,
            start_col: 5,
            stop_row: 2,
            stop_col: 2,
        })
    );
    assert_eq!(
        Vec::<Cell>::new(),
        grid.get_cells(Rect {
            start_row: 50,
            start_col: 26,
            stop_row: 60,
            stop_col: 30,
        })
    );
}

#[test]
fn single_cells() {
    let mut grid = MemoryCellsService::new(3, 2);
    assert_eq!(None, grid.get_cell(0, 0));
    assert_eq!(None, grid.get_cell(5, 5));
    assert_eq!(None, grid.get_cell(-1, 0));
    grid.set_cell(&stored(2, 1, "=1+1", "old"));
    assert_eq!(Some(stored(2, 1, "=1+1", "old")), grid.get_cell(2, 1));
    grid.set_cell(&stored(2, 1, "", "old"));
    assert_eq!(None, grid.get_cell(2, 1));
    let empty = MemoryCellsService::new(0, 0);
    assert_eq!(None, empty.get_cell(0, 0));
    assert_eq!(Vec::<Cell>::new(), empty.get_cells(everything()));
}

#[test]
fn cells_and_their_ranges() {
    let c = stored(3, 4, "=A1", "1");
    assert!(c.is_formula());
    assert!(!cell(0, 0, "A1").is_formula());
    assert!(!cell(0, 0, "").is_formula());
    assert!(!cell(0, 0, " =1").is_formula());
    assert_eq!(CellLocation { row: 3, col: 4 }, c.loc());
    let one = CellRange {
        start_row: 3,
        start_col: 4,
        stop_row: 4,
        stop_col: 5,
    };
    assert_eq!(one, c.to_range());
    assert_eq!(one, c.loc().to_range());
    assert_eq!(25, c.loc().magnitude());
    assert_eq!(stored(0, 0, "", ""), Cell::empty());
    assert_eq!(stored(1, 2, "x", ""), Cell::new(1, 2, "x".to_string()));
    assert_eq!(c, c.duplicate());

    let mut open = CellRange {
        start_row: 1,
        start_col: 0,
        stop_row: -1,
        stop_col: 1,
    };
    open.clamp(50);
    assert_eq!(
        CellRange {
            start_row: 1,
            start_col: 0,
            stop_row: 50,
            stop_col: 1,
        },
        open
    );
    let mut closed = one;
    closed.clamp(50);
    assert_eq!(one, closed);
}

#[test]
fn rectangles() {
    let r = Rect {
        start_row: -3,
        start_col: 2,
        stop_row: 70,
        stop_col: 30,
    };
    assert_eq!(
        Rect {
            start_row: 0,
            start_col: 2,
            stop_row: 50,
            stop_col: 26,
        },
        r.clamp(50, 26)
    );
    assert_eq!(28, width(&r));
    assert_eq!(
        Rect {
            start_row: 0,
            start_col: 0,
            stop_row: 0,
            stop_col: 0,
        },
        r.clamp(0, 0)
    );
}

#[test]
fn a_sum_follows_a_cell_that_its_range_reaches_through_a_formula() {
    let mut grid = MemoryCellsService::new(50, 26);
    grid.insert_cells(&vec![
        cell(0, 0, "1"),
        cell(1, 0, "=B1"),
        cell(2, 0, "3"),
        cell(0, 1, "10"),
        cell(0, 3, "=SUM(A1:A3)"),
    ])
    .unwrap();
    assert_eq!("14", shown(&grid, 0, 3));
    let changed = grid.insert_cells(&vec![cell(0, 1, "20")]).unwrap();
    assert_eq!(
        vec![
            stored(0, 1, "20", "20"),
            stored(1, 0, "=B1", "20"),
            stored(0, 3, "=SUM(A1:A3)", "24"),
        ],
        changed
    );
    assert_eq!("24", shown(&grid, 0, 3));
}
