use bursts::cell::TerminalCell;
use bursts::scene::{
    clearance, explosion_streak, flare_core, plot_particle, plot_rocket, sky_cell, star_base_count,
    star_flare, star_glyph,
};

fn blank_grid(cols: usize, rows: usize) -> Vec<TerminalCell> {
    vec![TerminalCell::blank(); cols * rows]
}

#[test]
fn star_glyph_pattern() {
    assert_eq!(star_glyph(0), '✦');
    assert_eq!(star_glyph(8), '✦');
    assert_eq!(star_glyph(24), '✦');
    assert_eq!(star_glyph(3), '+');
    assert_eq!(star_glyph(9), '+');
    assert_eq!(star_glyph(1), '.');
    assert_eq!(star_glyph(10), '.');
}

#[test]
fn star_base_count_clamps() {
    assert_eq!(star_base_count(10, 10), 10);
    assert_eq!(star_base_count(80, 24), 80);
    assert_eq!(star_base_count(40, 20), 40);
    assert_eq!(star_base_count(0, 0), 10);
}

#[test]
fn clearance_above_buildings() {
    let heights = vec![0, 3, 10];
    assert_eq!(clearance(&heights, 24, 0, 23), 0);
    assert_eq!(clearance(&heights, 24, 0, 13), 10);
    assert_eq!(clearance(&heights, 24, 1, 13), 7);
    assert_eq!(clearance(&heights, 24, 2, 20), 0);
}

#[test]
fn sky_cell_checks_grid_and_skyline() {
    let heights = vec![0, 2];
    assert!(sky_cell(&heights, 2, 4, 0, 3));
    assert!(!sky_cell(&heights, 2, 4, 1, 3));
    assert!(!sky_cell(&heights, 2, 4, 1, 2));
    assert!(sky_cell(&heights, 2, 4, 1, 1));
    assert!(!sky_cell(&heights, 2, 4, 2, 0));
    assert!(!sky_cell(&heights, 2, 4, 0, 4));
}

#[test]
fn plot_rocket_inside_and_outside() {
    let mut grid = blank_grid(4, 3);
    assert!(plot_rocket(&mut grid, 4, 3, 2, 1));
    assert_eq!(grid[6], TerminalCell { ch: '^', fg: (255, 255, 255), bg: (0, 0, 0), bold: true });
    assert!(!plot_rocket(&mut grid, 4, 3, 4, 1));
    assert!(!plot_rocket(&mut grid, 4, 3, 0, 3));
    assert_eq!(grid.iter().filter(|c| c.ch == '^').count(), 1);
}

#[test]
fn plot_particle_respects_skyline_and_glyphs() {
    let heights = vec![0, 2, 0];
    let mut grid = blank_grid(3, 4);
    // spark in open sky
    assert!(plot_particle(&mut grid, &heights, 3, 4, 0, 0, '*', (9, 9, 9), true, false));
    assert_eq!(grid[0], TerminalCell { ch: '*', fg: (9, 9, 9), bg: (0, 0, 0), bold: true });
    // spark below the roof of column 1
    assert!(!plot_particle(&mut grid, &heights, 3, 4, 1, 3, '*', (9, 9, 9), true, false));
    // smoke goes anywhere on the grid
    assert!(plot_particle(&mut grid, &heights, 3, 4, 1, 3, '.', (100, 100, 100), false, true));
    assert_eq!(grid[10].ch, '.');
    // a spark does not cover another spark, but covers a flare stroke
    assert!(!plot_particle(&mut grid, &heights, 3, 4, 0, 0, '+', (1, 1, 1), false, false));
    grid[2].ch = '─';
    assert!(plot_particle(&mut grid, &heights, 3, 4, 2, 0, '+', (1, 1, 1), false, false));
    assert_eq!(grid[2].ch, '+');
    // off the grid
    assert!(!plot_particle(&mut grid, &heights, 3, 4, 3, 0, '+', (1, 1, 1), false, true));
}

#[test]
fn flare_core_keeps_background() {
    let mut grid = blank_grid(3, 3);
    grid[4].bg = (15, 15, 22);
    assert!(flare_core(&mut grid, 3, 3, 1, 1, '✸', (200, 100, 50), true));
    assert_eq!(grid[4], TerminalCell { ch: '✸', fg: (200, 100, 50), bg: (15, 15, 22), bold: true });
    assert!(!flare_core(&mut grid, 3, 3, 3, 1, '✸', (200, 100, 50), true));
}

#[test]
fn explosion_streak_fades_with_distance() {
    let (cols, rows) = (20, 3);
    let mut grid = blank_grid(cols, rows);
    grid[1 * cols + 11].ch = 'x';
    let blend = |fg: (u8, u8, u8), fade: u8| (fade, fg.1, 7);
    // streak of 6 cells: step 150 / 6 = 25; fades 135, 110, 85, 60, 35
    explosion_streak(&mut grid, cols, rows, 10, 1, 6, 160, &blend);
    for dx in 1..6usize {
        let fade = 160 - 25 * dx as u8;
        let right = grid[1 * cols + 10 + dx];
        let left = grid[1 * cols + 10 - dx];
        assert_eq!(right.fg, (fade, 0, 7));
        assert_eq!(left.fg, (fade, 0, 7));
        assert_eq!(left.ch, '─');
        if dx == 1 {
            assert_eq!(right.ch, 'x');
        } else {
            assert_eq!(right.ch, '─');
        }
    }
    assert_eq!(grid[1 * cols + 16], TerminalCell::blank());
    assert_eq!(grid[1 * cols + 4], TerminalCell::blank());
    assert_eq!(grid[1 * cols + 10], TerminalCell::blank());
    assert!(grid[..cols].iter().all(|c| *c == TerminalCell::blank()));
}

#[test]
fn explosion_streak_stops_when_faint_and_at_edges() {
    let (cols, rows) = (6, 1);
    let mut grid = blank_grid(cols, rows);
    let blend = |_: (u8, u8, u8), fade: u8| (fade, fade, fade);
    // step 150 / 10 = 15; alpha 40 gives fades 25, 10: only distance 1 shows
    explosion_streak(&mut grid, cols, rows, 0, 0, 10, 40, &blend);
    assert_eq!(grid[1].fg, (25, 25, 25));
    assert!(grid[2..].iter().all(|c| *c == TerminalCell::blank()));
    assert_eq!(grid[0], TerminalCell::blank());
}

#[test]
fn star_flare_strokes() {
    let (cols, rows) = (30, 12);
    let heights = vec![0; cols];
    let mut grid = blank_grid(cols, rows);
    let color_h = |fade: u8| (fade, 0, 0);
    let color_v = |fade: u8| (0, fade, 0);
    star_flare(&mut grid, &heights, cols, rows, 15, 6, 120, 90, &color_h, &color_v);
    // horizontal: 120 - 9 dx > 10 for dx up to 11 (120 - 99 = 21)
    for dx in 1..12usize {
        let fade = 120 - 9 * dx as u8;
        assert_eq!(grid[6 * cols + 15 + dx], TerminalCell { ch: '─', fg: (fade, 0, 0), bg: (0, 0, 0), bold: false });
        assert_eq!(grid[6 * cols + 15 - dx].fg, (fade, 0, 0));
    }
    assert_eq!(grid[6 * cols + 27], TerminalCell::blank());
    // vertical: 90 - 16 dy > 10 for dy up to 4 (90 - 64 = 26)
    for dy in 1..5usize {
        let fade = 90 - 16 * dy as u8;
        assert_eq!(grid[(6 + dy) * cols + 15], TerminalCell { ch: '│', fg: (0, fade, 0), bg: (0, 0, 0), bold: false });
        assert_eq!(grid[(6 - dy) * cols + 15].ch, '│');
    }
    assert_eq!(grid[11 * cols + 15], TerminalCell::blank());
    assert_eq!(grid[6 * cols + 15], TerminalCell::blank());
}

#[test]
fn star_flare_spares_buildings_and_glyphs() {
    let (cols, rows) = (5, 5);
    let mut heights = vec![0; cols];
    heights[3] = 4;
    let mut grid = blank_grid(cols, rows);
    grid[2 * cols + 1].ch = '*';
    let color = |fade: u8| (fade, fade, fade);
    star_flare(&mut grid, &heights, cols, rows, 2, 2, 30, 30, &color, &color);
    // row 2 stands 2 above the bottom: column 3 (height 4) is a building
    assert_eq!(grid[2 * cols + 3], TerminalCell::blank());
    // the star glyph left of the star is kept
    assert_eq!(grid[2 * cols + 1].ch, '*');
    // alpha 30: distance 2 fades to 12, still drawn
    assert_eq!(grid[2 * cols + 4].ch, '─');
    assert_eq!(grid[2 * cols + 4].fg, (12, 12, 12));
    // vertical: 30 - 16 = 14 at distance 1, nothing further
    assert_eq!(grid[1 * cols + 2].ch, '│');
    assert_eq!(grid[3 * cols + 2].ch, '│');
    assert_eq!(grid[0 * cols + 2], TerminalCell::blank());
}
