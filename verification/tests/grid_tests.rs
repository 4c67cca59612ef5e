use bursts::cell::{clear_grid, store, TerminalCell};
use bursts::geometry::cell_at;
use bursts::skyline::mirror;

fn cell(ch: char) -> TerminalCell {
    TerminalCell { ch, fg: (1, 2, 3), bg: (4, 5, 6), bold: true }
}

#[test]
fn blank_cell_is_black_space() {
    let b = TerminalCell::blank();
    assert_eq!(b, TerminalCell { ch: ' ', fg: (0, 0, 0), bg: (0, 0, 0), bold: false });
}

#[test]
fn clear_grid_blanks_every_cell() {
    let mut grid = vec![cell('x'); 12];
    clear_grid(&mut grid);
    assert_eq!(grid.len(), 12);
    assert!(grid.iter().all(|c| *c == TerminalCell::blank()));
}

#[test]
fn clear_grid_on_empty_grid() {
    let mut grid: Vec<TerminalCell> = Vec::new();
    clear_grid(&mut grid);
    assert!(grid.is_empty());
}

#[test]
fn store_writes_one_slot() {
    let mut v = vec![1, 2, 3];
    store(&mut v, 1, 9);
    assert_eq!(v, vec![1, 9, 3]);
}

#[test]
fn cell_at_is_row_major() {
    assert_eq!(cell_at(80, 24, 0, 0, 80 * 24), 0);
    assert_eq!(cell_at(80, 24, 5, 2, 80 * 24), 165);
    assert_eq!(cell_at(80, 24, 79, 23, 80 * 24), 80 * 24 - 1);
}

#[test]
fn mirror_counts_from_the_bottom_row() {
    assert_eq!(mirror(24, 0), 23);
    assert_eq!(mirror(24, 23), 0);
    assert_eq!(mirror(24, 30), 0);
    assert_eq!(mirror(0, 0), 0);
    assert_eq!(mirror(1, 0), 0);
}
