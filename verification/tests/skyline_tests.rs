use bursts::cell::TerminalCell;
use bursts::skyline::{draw_skyline, skyline_allowed, Skyline};

fn lit_all(width: usize, height: usize) -> Vec<Vec<bool>> {
    vec![vec![true; height]; width]
}

fn lit_none(width: usize, height: usize) -> Vec<Vec<bool>> {
    vec![vec![false; height]; width]
}

fn lit_windows_under_roofs(sky: &Skyline) -> bool {
    (0..sky.windows.len()).all(|i| !sky.windows[i] || sky.window_under_roof(i))
}

#[test]
fn skyline_allowed_rules() {
    assert!(skyline_allowed(0, 80, 24, false));
    assert!(!skyline_allowed(1, 80, 24, false));
    assert!(!skyline_allowed(0, 80, 3, false));
    assert!(skyline_allowed(0, 80, 4, false));
    assert!(!skyline_allowed(0, 0, 24, false));
    assert!(!skyline_allowed(0, 80, 24, true));
    assert!(skyline_allowed(2, 1, 4, false));
}

#[test]
fn flat_skyline_has_no_buildings() {
    let sky = Skyline::flat(10, 6);
    assert_eq!(sky.heights, vec![0; 10]);
    assert_eq!(sky.windows, vec![false; 60]);
    let empty = Skyline::empty();
    assert!(empty.heights.is_empty() && empty.windows.is_empty());
}

#[test]
fn place_building_raises_columns_and_lights_windows() {
    let mut sky = Skyline::flat(6, 5);
    let mut lit = lit_none(3, 2);
    lit[0][0] = true;
    lit[2][1] = true;
    sky.place_building(1, 6, 3, 2, &lit);
    assert_eq!(sky.heights, vec![0, 2, 2, 2, 0, 0]);
    // level 0 of column 1 is the bottom row, level 1 of column 3 the row above
    let mut expected = vec![false; 30];
    expected[4 * 6 + 1] = true;
    expected[3 * 6 + 3] = true;
    assert_eq!(sky.windows, expected);
    assert!(lit_windows_under_roofs(&sky));
}

#[test]
fn place_building_stops_at_end_column() {
    let mut sky = Skyline::flat(5, 4);
    sky.place_building(3, 4, 3, 3, &lit_all(1, 3));
    assert_eq!(sky.heights, vec![0, 0, 0, 3, 0]);
    let lit: Vec<usize> = (0..20).filter(|&i| sky.windows[i]).collect();
    assert_eq!(lit, vec![1 * 5 + 3, 2 * 5 + 3, 3 * 5 + 3]);
}

#[test]
fn place_building_taller_than_grid_tops_out() {
    let mut sky = Skyline::flat(2, 4);
    let mut lit = lit_none(1, 6);
    lit[0][5] = true;
    sky.place_building(0, 2, 1, 6, &lit);
    assert_eq!(sky.heights, vec![6, 0]);
    assert!(sky.windows[0]);
    assert_eq!(sky.windows.iter().filter(|w| **w).count(), 1);
}

#[test]
fn twinkle_only_inside_buildings() {
    let mut sky = Skyline::flat(4, 4);
    sky.place_building(0, 4, 2, 2, &lit_none(2, 2));
    // bottom-left cell is inside the first building; the top row is sky
    let inside = 3 * 4 + 0;
    let outside = 0 * 4 + 0;
    assert!(sky.window_under_roof(inside));
    assert!(!sky.window_under_roof(outside));
    assert!(!sky.window_under_roof(3 * 4 + 2));
    assert!(!sky.window_under_roof(100));
    sky.toggle_window(inside);
    assert!(sky.windows[inside]);
    sky.toggle_window(outside);
    assert!(!sky.windows[outside]);
    sky.toggle_window(inside);
    assert!(!sky.windows[inside]);
    sky.toggle_window(inside);
    sky.darken_window(inside);
    assert!(!sky.windows[inside]);
    assert!(lit_windows_under_roofs(&sky));
}

#[test]
fn draw_skyline_fills_columns_from_the_bottom() {
    let (cols, rows) = (3, 4);
    let mut sky = Skyline::flat(cols, rows);
    let mut lit = lit_none(1, 2);
    lit[0][1] = true;
    sky.place_building(1, 3, 1, 2, &lit);
    let mut grid = vec![TerminalCell::blank(); cols * rows];
    let paint = |c: usize, gy: usize, level: usize, lit: bool| -> (char, (u8, u8, u8), bool) {
        (if lit { '■' } else { '#' }, (c as u8, gy as u8, level as u8), lit)
    };
    draw_skyline(&sky, &paint, &mut grid, cols, rows);
    let bg = (15, 15, 22);
    assert_eq!(grid[3 * cols + 1], TerminalCell { ch: '#', fg: (1, 3, 0), bg, bold: false });
    assert_eq!(grid[2 * cols + 1], TerminalCell { ch: '■', fg: (1, 2, 1), bg, bold: true });
    let painted = grid.iter().filter(|c| **c != TerminalCell::blank()).count();
    assert_eq!(painted, 2);
}

#[test]
fn draw_skyline_top_row_keeps_last_level() {
    let (cols, rows) = (1, 2);
    let sky = Skyline { cols, rows, heights: vec![5], windows: vec![false, false] };
    let mut grid = vec![TerminalCell::blank(); 2];
    let paint = |_: usize, gy: usize, level: usize, _: bool| ('#', (gy as u8, level as u8, 0), false);
    draw_skyline(&sky, &paint, &mut grid, cols, rows);
    assert_eq!(grid[0].fg, (0, 4, 0));
    assert_eq!(grid[1].fg, (1, 0, 0));
}

#[test]
fn draw_skyline_clips_to_fewer_columns() {
    let mut sky = Skyline::flat(4, 4);
    sky.place_building(0, 4, 4, 1, &lit_none(4, 1));
    let mut grid = vec![TerminalCell::blank(); 2 * 4];
    let paint = |_: usize, _: usize, _: usize, _: bool| ('#', (1, 1, 1), false);
    draw_skyline(&sky, &paint, &mut grid, 2, 4);
    let painted: Vec<usize> = (0..8).filter(|&i| grid[i].ch == '#').collect();
    assert_eq!(painted, vec![6, 7]);
}

#[test]
fn twinkling_windows_are_the_drawn_building_cells() {
    let (cols, rows) = (7, 5);
    let mut sky = Skyline::flat(cols, rows);
    sky.place_building(0, cols, 3, 2, &lit_all(3, 2));
    sky.place_building(4, cols, 3, 7, &lit_none(3, 7));
    let marker = TerminalCell { ch: '?', fg: (0, 0, 0), bg: (0, 0, 0), bold: false };
    let mut grid = vec![marker; cols * rows];
    let paint = |_: usize, _: usize, _: usize, _: bool| ('#', (1, 1, 1), false);
    draw_skyline(&sky, &paint, &mut grid, cols, rows);
    for i in 0..cols * rows {
        assert_eq!(sky.window_under_roof(i), grid[i].ch == '#', "cell {}", i);
    }
}
