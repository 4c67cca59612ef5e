use bursts::cell::TerminalCell;
use bursts::logo::{dim_accent, draw_logo, LogoPlacement};

fn placement(x: usize, y: usize, lines: &[&str]) -> Option<LogoPlacement> {
    Some(LogoPlacement { x, y, lines: lines.iter().map(|l| l.chars().collect()).collect() })
}

#[test]
fn dim_accent_is_fifteen_percent() {
    assert_eq!(dim_accent((255, 100, 20)), (38, 15, 3));
    assert_eq!(dim_accent((0, 6, 7)), (0, 0, 1));
}

#[test]
fn dim_accent_matches_float_scaling_for_every_byte() {
    for a in 0..=255u8 {
        let float = (a as f32 * 0.15) as u8;
        assert_eq!(dim_accent((a, a, a)), (float, float, float), "channel {}", a);
    }
}

#[test]
fn draw_logo_paints_non_space_characters() {
    let (cols, rows) = (6, 3);
    let mut grid = vec![TerminalCell::blank(); cols * rows];
    let logo = placement(1, 1, &["a b"]);
    let light = |gx: usize, gy: usize, dim: (u8, u8, u8)| -> ((u8, u8, u8), bool) {
        ((gx as u8, gy as u8, dim.0), gx == 1)
    };
    draw_logo(&logo, &light, &mut grid, cols, rows, (200, 0, 0));
    assert_eq!(grid[1 * cols + 1], TerminalCell { ch: 'a', fg: (1, 1, 30), bg: (0, 0, 0), bold: true });
    assert_eq!(grid[1 * cols + 2], TerminalCell::blank());
    assert_eq!(grid[1 * cols + 3], TerminalCell { ch: 'b', fg: (3, 1, 30), bg: (0, 0, 0), bold: false });
    let painted = grid.iter().filter(|c| **c != TerminalCell::blank()).count();
    assert_eq!(painted, 2);
}

#[test]
fn draw_logo_clips_at_grid_edges() {
    let (cols, rows) = (4, 2);
    let old = TerminalCell { ch: '.', fg: (9, 9, 9), bg: (1, 1, 1), bold: false };
    let mut grid = vec![old; cols * rows];
    let logo = placement(2, 1, &["xyz", "uvw"]);
    let light = |_: usize, _: usize, dim: (u8, u8, u8)| (dim, false);
    draw_logo(&logo, &light, &mut grid, cols, rows, (100, 100, 100));
    assert_eq!(grid[1 * cols + 2].ch, 'x');
    assert_eq!(grid[1 * cols + 3].ch, 'y');
    assert_eq!(grid[1 * cols + 2].fg, (15, 15, 15));
    assert_eq!(grid[1 * cols + 2].bg, (0, 0, 0));
    for i in 0..cols * rows {
        if i != 1 * cols + 2 && i != 1 * cols + 3 {
            assert_eq!(grid[i], old);
        }
    }
}

#[test]
fn draw_logo_without_placement_changes_nothing() {
    let mut grid = vec![TerminalCell::blank(); 20];
    let light = |_: usize, _: usize, dim: (u8, u8, u8)| (dim, true);
    draw_logo(&None, &light, &mut grid, 5, 4, (255, 255, 255));
    assert!(grid.iter().all(|c| *c == TerminalCell::blank()));
}

#[test]
fn draw_logo_outside_grid_changes_nothing() {
    let mut grid = vec![TerminalCell::blank(); 20];
    let light = |_: usize, _: usize, dim: (u8, u8, u8)| (dim, true);
    draw_logo(&placement(5, 0, &["abc"]), &light, &mut grid, 5, 4, (255, 255, 255));
    draw_logo(&placement(0, 4, &["abc"]), &light, &mut grid, 5, 4, (255, 255, 255));
    assert!(grid.iter().all(|c| *c == TerminalCell::blank()));
}
