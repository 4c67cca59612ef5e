use vstd::prelude::*;
use crate::cell::{Rgb, TerminalCell, store};
use crate::geometry::{cell_index, col_of, row_of, cell_at, lemma_index_cell, lemma_index_unique};
use crate::skyline::{mirror, mirror_row};

verus! {

/// The glyph of the `n`-th star of the field: a sparkle for every eighth
/// star, a cross for every third of the rest, a dot otherwise.
pub fn star_glyph(n: usize) -> (ch: char)
    ensures
        ch == (if n % 8 == 0 {
            '✦'
        } else if n % 3 == 0 {
            '+'
        } else {
            '.'
        }),
{
    if n.is_multiple_of(8) {
        '✦'
    } else if n.is_multiple_of(3) {
        '+'
    } else {
        '.'
    }
}

/// The size of the star field before quality and battery scaling: one star
/// per twenty cells, at least ten and at most eighty.
pub fn star_base_count(cols: usize, rows: usize) -> (n: usize)
    requires
        cols * rows <= usize::MAX,
    ensures
        n == (if cols * rows / 20 < 10 {
            10
        } else if cols * rows / 20 > 80 {
            80
        } else {
            cols * rows / 20
        }),
        10 <= n <= 80,
{
    let per = cols * rows / 20;
    if per < 10 {
        10
    } else if per > 80 {
        80
    } else {
        per
    }
}

/// How far row `cy` stands above the building in column `cx`: its height
/// above the bottom row less the building height, never below zero.
pub fn clearance(heights: &Vec<usize>, rows: usize, cx: usize, cy: usize) -> (d: usize)
    requires
        cx < heights@.len(),
    ensures
        d == (if mirror_row(rows as int, cy as int) >= heights@[cx as int] {
            mirror_row(rows as int, cy as int) - heights@[cx as int]
        } else {
            0
        }),
        cy < rows ==> d == (if rows - 1 - cy >= heights@[cx as int] {
            rows - 1 - cy - heights@[cx as int]
        } else {
            0
        }),
{
    mirror(rows, cy).saturating_sub(heights[cx])
}

/// The cell in column `cx`, row `cy` lies on the grid and not below the
/// building in its column (the sky, where stars and bursts show).
pub open spec fn in_sky(heights: Seq<usize>, cols: int, rows: int, cx: int, cy: int) -> bool {
    &&& 0 <= cx < cols
    &&& 0 <= cy < rows
    &&& mirror_row(rows, cy) >= heights[cx]
}

/// Whether column `sx`, row `sy` is open sky on the grid.
pub fn sky_cell(heights: &Vec<usize>, cols: usize, rows: usize, sx: usize, sy: usize) -> (b: bool)
    requires
        cols <= heights@.len(),
    ensures
        b == in_sky(heights@, cols as int, rows as int, sx as int, sy as int),
        b == (sx < cols && sy < rows && rows - 1 - sy >= heights@[sx as int]),
{
    sx < cols && sy < rows && mirror(rows, sy) >= heights[sx]
}

/// The cell a rising rocket shows: a bold white caret on black.
pub open spec fn rocket_cell() -> TerminalCell {
    TerminalCell { ch: '^', fg: (255, 255, 255), bg: (0, 0, 0), bold: true }
}

/// Draws a rising rocket at column `cx`, row `cy`: a bold white caret on
/// black, when that cell is on the grid. Returns whether it was drawn; no
/// other cell changes.
pub fn plot_rocket(grid: &mut Vec<TerminalCell>, cols: usize, rows: usize, cx: usize, cy: usize) -> (drawn: bool)
    requires
        cols * rows <= old(grid)@.len(),
    ensures
        drawn == (cx < cols && cy < rows),
        final(grid)@ == (if drawn {
            old(grid)@.update(cell_index(cols as int, cx as int, cy as int), rocket_cell())
        } else {
            old(grid)@
        }),
        drawn ==> final(grid)@ == old(grid)@.update(
            cy * cols + cx,
            TerminalCell { ch: '^', fg: (255u8, 255u8, 255u8), bg: (0u8, 0u8, 0u8), bold: true },
        ),
        !drawn ==> final(grid)@ == old(grid)@,
{
    if cx < cols && cy < rows {
        let idx = cell_at(cols, rows, cx, cy, grid.len());
        store(grid, idx, TerminalCell { ch: '^', fg: (255, 255, 255), bg: (0, 0, 0), bold: true });
        true
    } else {
        false
    }
}

/// A particle may overwrite a cell showing this glyph: empty space or a
/// flare streak.
pub open spec fn overwritable(ch: char) -> bool {
    ch == ' ' || ch == '─' || ch == '│' || ch == '/' || ch == '\\'
}

/// A spark only ever covers empty space or a flare stroke: a cell showing
/// any other glyph (logo text, a star, a rocket, another spark) keeps it.
pub proof fn law_particles_spare_glyphs(ch: char)
    ensures
        overwritable(ch) ==> (ch == ' ' || ch == '─' || ch == '│' || ch == '/' || ch == '\\'),
        (ch == ' ' || ch == '─' || ch == '│' || ch == '/' || ch == '\\') ==> overwritable(ch),
{
}

/// Draws a burst particle (or a smoke ember when `is_smoke`) at column `cx`,
/// row `cy` as glyph `glyph` in colour `fg` on black. It is drawn only on the
/// grid; a spark only in the sky above the skyline and only over empty space
/// or a flare streak, while smoke is drawn anywhere on the grid. Returns
/// whether it was drawn; no other cell changes.
pub fn plot_particle(
    grid: &mut Vec<TerminalCell>,
    heights: &Vec<usize>,
    cols: usize,
    rows: usize,
    cx: usize,
    cy: usize,
    glyph: char,
    fg: Rgb,
    bold: bool,
    is_smoke: bool,
) -> (drawn: bool)
    requires
        cols * rows <= old(grid)@.len(),
        cols <= heights@.len(),
    ensures
        drawn == (cx < cols && cy < rows && (is_smoke || (in_sky(
            heights@,
            cols as int,
            rows as int,
            cx as int,
            cy as int,
        ) && overwritable(old(grid)@[cell_index(cols as int, cx as int, cy as int)].ch)))),
        final(grid)@ == (if drawn {
            old(grid)@.update(
                cell_index(cols as int, cx as int, cy as int),
                TerminalCell { ch: glyph, fg, bg: (0, 0, 0), bold },
            )
        } else {
            old(grid)@
        }),
        // the same, stated on the grid itself: a spark needs open sky and a
        // cell showing space or a flare stroke; smoke only needs the grid
        ({
            let old_ch = old(grid)@[cy * cols + cx].ch;
            drawn == (cx < cols && cy < rows && (is_smoke || (rows - 1 - cy >= heights@[cx as int] && (
            old_ch == ' ' || old_ch == '─' || old_ch == '│' || old_ch == '/' || old_ch == '\\'))))
        }),
        !is_smoke && cx < cols && cy < rows && !({
            let old_ch = old(grid)@[cy * cols + cx].ch;
            old_ch == ' ' || old_ch == '─' || old_ch == '│' || old_ch == '/' || old_ch == '\\'
        }) ==> final(grid)@ == old(grid)@,
        drawn ==> final(grid)@ == old(grid)@.update(
            cy * cols + cx,
            TerminalCell { ch: glyph, fg, bg: (0, 0, 0), bold },
        ),
        !drawn ==> final(grid)@ == old(grid)@,
{
    if cx < cols && cy < rows {
        let idx = cell_at(cols, rows, cx, cy, grid.len());
        let above = mirror(rows, cy);
        if above >= heights[cx] || is_smoke {
            let current = grid[idx].ch;
            if is_smoke || current == ' ' || current == '─' || current == '│' || current == '/'
                || current == '\\' {
                store(grid, idx, TerminalCell { ch: glyph, fg, bg: (0, 0, 0), bold });
                return true;
            }
        }
    }
    false
}

/// Draws the core of an explosion flare at column `sx`, row `sy`: glyph
/// `ch` in colour `fg`, keeping the cell's background. Returns whether the
/// cell is on the grid and was drawn; no other cell changes.
pub fn flare_core(
    grid: &mut Vec<TerminalCell>,
    cols: usize,
    rows: usize,
    sx: usize,
    sy: usize,
    ch: char,
    fg: Rgb,
    bold: bool,
) -> (drawn: bool)
    requires
        cols * rows <= old(grid)@.len(),
    ensures
        drawn == (sx < cols && sy < rows),
        final(grid)@ == (if drawn {
            old(grid)@.update(
                cell_index(cols as int, sx as int, sy as int),
                TerminalCell {
                    ch,
                    fg,
                    bg: old(grid)@[cell_index(cols as int, sx as int, sy as int)].bg,
                    bold,
                },
            )
        } else {
            old(grid)@
        }),
        drawn ==> final(grid)@ == old(grid)@.update(
            sy * cols + sx,
            TerminalCell { ch, fg, bg: old(grid)@[sy * cols + sx].bg, bold },
        ),
        !drawn ==> final(grid)@ == old(grid)@,
{
    if sx < cols && sy < rows {
        let idx = cell_at(cols, rows, sx, sy, grid.len());
        let bg = grid[idx].bg;
        store(grid, idx, TerminalCell { ch, fg, bg, bold });
        true
    } else {
        false
    }
}


/// The distance between columns `x` and `sx`.
pub open spec fn col_dist(x: int, sx: int) -> int {
    if x >= sx { x - sx } else { sx - x }
}

/// The fade of an explosion's horizontal streak `dx` cells from its core,
/// for a streak `h_len` cells long starting at intensity `alpha`: `alpha`
/// less `dx` steps of `150 / h_len`, never below zero.
pub open spec fn streak_fade(alpha: u8, dx: int, h_len: int) -> int {
    let step = 150int / (if h_len > 1 { h_len } else { 1 });
    if alpha >= dx * step { alpha - dx * step } else { 0 }
}

/// Grid index `i` lies on the horizontal streak of an explosion at column
/// `sx`, row `sy`: in that row, less than `h_len` columns away but not the
/// core, where the fade is still above 15.
pub open spec fn on_streak(cols: int, rows: int, sx: int, sy: int, h_len: int, alpha: u8, i: int) -> bool {
    &&& cols > 0
    &&& 0 <= i < cols * rows
    &&& row_of(cols, i) == sy
    &&& 0 < col_dist(col_of(cols, i), sx) < h_len
    &&& streak_fade(alpha, col_dist(col_of(cols, i), sx), h_len) > 15
}

/// `after` is `before` brushed by a streak of fade `fade`: its colour is
/// what `blend` makes of the old colour at that fade, empty space becomes a
/// horizontal stroke, and background and boldness stay.
pub open spec fn streaked<F: Fn(Rgb, u8) -> Rgb>(before: TerminalCell, after: TerminalCell, blend: F, fade: int) -> bool {
    &&& blend.ensures((before.fg, fade as u8), after.fg)
    &&& after.ch == (if before.ch == ' ' { '─' } else { before.ch })
    &&& after.bg == before.bg
    &&& after.bold == before.bold
}

/// The step `150 / h_len` taken fewer than `h_len` times stays within 150.
proof fn lemma_streak_step(dx: int, h_len: int)
    requires
        0 <= dx < h_len,
    ensures
        0 <= dx * (150int / h_len) <= 150,
{
    let step = 150int / h_len;
    vstd::arithmetic::div_mod::lemma_fundamental_div_mod(150, h_len);
    vstd::arithmetic::div_mod::lemma_mod_bound(150, h_len);
    vstd::arithmetic::div_mod::lemma_div_pos_is_pos(150, h_len);
    assert(0 <= dx * step <= h_len * step) by (nonlinear_arith)
        requires
            0 <= dx < h_len,
            step >= 0,
    ;
}

/// Cell `i` of `after` is brushed from `before` when it lies on the streak
/// less than `d` columns from the core, and is unchanged otherwise.
pub open spec fn streak_cell_drawn<F: Fn(Rgb, u8) -> Rgb>(
    before: Seq<TerminalCell>,
    after: Seq<TerminalCell>,
    blend: F,
    cols: int,
    rows: int,
    sx: int,
    sy: int,
    h_len: int,
    alpha: u8,
    d: int,
    i: int,
) -> bool {
    if on_streak(cols, rows, sx, sy, h_len, alpha, i) && col_dist(col_of(cols, i), sx) < d {
        streaked(before[i], after[i], blend, streak_fade(alpha, col_dist(col_of(cols, i), sx), h_len))
    } else {
        after[i] == before[i]
    }
}

/// Every cell of `after` is brushed or kept as `streak_cell_drawn` says.
pub open spec fn streak_drawn<F: Fn(Rgb, u8) -> Rgb>(
    before: Seq<TerminalCell>,
    after: Seq<TerminalCell>,
    blend: F,
    cols: int,
    rows: int,
    sx: int,
    sy: int,
    h_len: int,
    alpha: u8,
    d: int,
) -> bool {
    forall|i: int| 0 <= i < after.len() ==> #[trigger] streak_cell_drawn(before, after, blend, cols, rows, sx, sy, h_len, alpha, d, i)
}

/// Brushes one streak cell at index `idx` with fade `fade`.
fn brush_cell<F: Fn(Rgb, u8) -> Rgb>(grid: &mut Vec<TerminalCell>, idx: usize, blend: &F, fade: u8)
    requires
        idx < old(grid)@.len(),
        forall|fg: Rgb, f: u8| blend.requires((fg, f)),
    ensures
        final(grid)@.len() == old(grid)@.len(),
        streaked(old(grid)@[idx as int], final(grid)@[idx as int], *blend, fade as int),
        final(grid)@[idx as int].ch == (if old(grid)@[idx as int].ch == ' ' {
            '─'
        } else {
            old(grid)@[idx as int].ch
        }),
        final(grid)@[idx as int].bg == old(grid)@[idx as int].bg,
        final(grid)@[idx as int].bold == old(grid)@[idx as int].bold,
        blend.ensures((old(grid)@[idx as int].fg, fade), final(grid)@[idx as int].fg),
        forall|j: int| 0 <= j < final(grid)@.len() && j != idx ==> final(grid)@[j] == old(grid)@[j],
{
    let cell = grid[idx];
    let fg = blend(cell.fg, fade);
    let ch = if cell.ch == ' ' { '─' } else { cell.ch };
    store(grid, idx, TerminalCell { ch, fg, bg: cell.bg, bold: cell.bold });
}

/// Draws the horizontal glow streak of an explosion whose core is at column
/// `sx`, row `sy`: for each distance `dx` from 1 up to `h_len`, the fade is
/// `alpha` less `dx` steps of `150 / h_len`; while it is above 15 the cells
/// `dx` columns to either side, where they are on the grid, take the colour
/// `blend` makes of theirs at that fade, and empty ones become horizontal
/// strokes. No other cell changes.
pub fn explosion_streak<F: Fn(Rgb, u8) -> Rgb>(
    grid: &mut Vec<TerminalCell>,
    cols: usize,
    rows: usize,
    sx: usize,
    sy: usize,
    h_len: usize,
    alpha: u8,
    blend: &F,
)
    requires
        cols * rows <= old(grid)@.len(),
        sx < cols,
        sy < rows,
        forall|fg: Rgb, f: u8| blend.requires((fg, f)),
    ensures
        final(grid)@.len() == old(grid)@.len(),
        forall|i: int|
            0 <= i < final(grid)@.len() ==> if #[trigger] on_streak(
                cols as int,
                rows as int,
                sx as int,
                sy as int,
                h_len as int,
                alpha,
                i,
            ) {
                streaked(
                    old(grid)@[i],
                    final(grid)@[i],
                    *blend,
                    streak_fade(alpha, col_dist(col_of(cols as int, i), sx as int), h_len as int),
                )
            } else {
                final(grid)@[i] == old(grid)@[i]
            },
        // stated on the grid itself: the streak never changes a glyph other
        // than a space, which becomes a horizontal stroke, and keeps every
        // background and boldness
        forall|i: int|
            0 <= i < final(grid)@.len() ==> {
                &&& (#[trigger] final(grid)@[i]).bg == old(grid)@[i].bg
                &&& final(grid)@[i].bold == old(grid)@[i].bold
                &&& old(grid)@[i].ch != ' ' ==> final(grid)@[i].ch == old(grid)@[i].ch
                &&& old(grid)@[i].ch == ' ' ==> (final(grid)@[i].ch == ' ' || final(grid)@[i].ch == '─')
            },
        // the cells `d` columns from the core in its row, while the fade
        // `alpha - d * (150 / h_len)` is above 15, are brushed at that fade
        forall|i: int|
            0 <= i < cols * rows && i / (cols as int) == sy && ({
                let x = i % (cols as int);
                let d = if x >= sx { x - sx } else { sx - x };
                0 < d < h_len && alpha as int - d * (150int / (if h_len > 1 { h_len as int } else { 1 }))
                    > 15
            }) ==> {
                let x = i % (cols as int);
                let d = if x >= sx { x - sx } else { sx - x };
                &&& blend.ensures(
                    (
                        old(grid)@[i].fg,
                        (alpha as int - d * (150int / (if h_len > 1 { h_len as int } else { 1 }))) as u8,
                    ),
                    (#[trigger] final(grid)@[i]).fg,
                )
                &&& final(grid)@[i].ch == (if old(grid)@[i].ch == ' ' { '─' } else { old(grid)@[i].ch })
            },
        // every other cell is left as it was
        forall|i: int|
            0 <= i < final(grid)@.len() && !(i < cols * rows && i / (cols as int) == sy && ({
                let x = i % (cols as int);
                let d = if x >= sx { x - sx } else { sx - x };
                0 < d < h_len && alpha as int - d * (150int / (if h_len > 1 { h_len as int } else { 1 }))
                    > 15
            })) ==> #[trigger] final(grid)@[i] == old(grid)@[i],
{
    let ghost old_grid = grid@;
    let glen = grid.len();
    let step: usize = 150 / (if h_len > 1 { h_len } else { 1 });
    let mut dx: usize = 1;
    while dx < h_len
        invariant
            cols * rows <= grid@.len(),
            glen == grid@.len(),
            old_grid.len() == grid@.len(),
            sx < cols,
            sy < rows,
            1 <= dx,
            h_len > 1 ==> dx <= h_len,
            step == 150int / (if h_len > 1 { h_len as int } else { 1 }),
            forall|fg: Rgb, f: u8| blend.requires((fg, f)),
            streak_drawn(old_grid, grid@, *blend, cols as int, rows as int, sx as int, sy as int, h_len as int, alpha, dx as int),
        decreases h_len - dx,
    {
        proof {
            lemma_streak_step(dx as int, h_len as int);
        }
        let fade = alpha.saturating_sub((dx * step) as u8);
        assert(fade == streak_fade(alpha, dx as int, h_len as int));
        let ghost before = grid@;
        if fade > 15 && dx < cols - sx {
            let idx = cell_at(cols, rows, sx + dx, sy, glen);
            brush_cell(grid, idx, blend, fade);
        }
        if fade > 15 && sx >= dx {
            let idx = cell_at(cols, rows, sx - dx, sy, glen);
            brush_cell(grid, idx, blend, fade);
        }
        proof {
            assert forall|i: int| 0 <= i < grid@.len() implies #[trigger] streak_cell_drawn(old_grid, grid@, *blend, cols as int, rows as int, sx as int, sy as int, h_len as int, alpha, dx + 1, i) by {
                assert(streak_cell_drawn(old_grid, before, *blend, cols as int, rows as int, sx as int, sy as int, h_len as int, alpha, dx as int, i));
                if cols > 0 && 0 <= i < cols * rows {
                    lemma_index_cell(cols as int, rows as int, i);
                    if row_of(cols as int, i) == sy && col_of(cols as int, i) == sx + dx && dx < cols - sx {
                        let j = cell_index(cols as int, (sx + dx) as int, sy as int);
                        crate::geometry::lemma_cell_index(cols as int, rows as int, (sx + dx) as int, sy as int);
                        lemma_index_unique(cols as int, rows as int, i, j);
                    }
                    if row_of(cols as int, i) == sy && col_of(cols as int, i) == sx - dx && sx >= dx {
                        let j = cell_index(cols as int, (sx - dx) as int, sy as int);
                        crate::geometry::lemma_cell_index(cols as int, rows as int, (sx - dx) as int, sy as int);
                        lemma_index_unique(cols as int, rows as int, i, j);
                    }
                }
            }
        }
        dx = dx + 1;
    }
    proof {
        assert forall|i: int| 0 <= i < grid@.len() implies if #[trigger] on_streak(
                cols as int,
                rows as int,
                sx as int,
                sy as int,
                h_len as int,
                alpha,
                i,
            ) {
                streaked(
                    old_grid[i],
                    grid@[i],
                    *blend,
                    streak_fade(alpha, col_dist(col_of(cols as int, i), sx as int), h_len as int),
                )
            } else {
                grid@[i] == old_grid[i]
            } by {
            assert(streak_cell_drawn(old_grid, grid@, *blend, cols as int, rows as int, sx as int, sy as int, h_len as int, alpha, dx as int, i));
        }
    }
    proof {
        reveal(col_of);
        reveal(row_of);
        assert forall|i: int| 0 <= i < grid@.len() implies {
                &&& (#[trigger] grid@[i]).bg == old_grid[i].bg
                &&& grid@[i].bold == old_grid[i].bold
                &&& old_grid[i].ch != ' ' ==> grid@[i].ch == old_grid[i].ch
                &&& old_grid[i].ch == ' ' ==> (grid@[i].ch == ' ' || grid@[i].ch == '─')
            } by {
            assert(streak_cell_drawn(old_grid, grid@, *blend, cols as int, rows as int, sx as int, sy as int, h_len as int, alpha, dx as int, i));
        }
        assert forall|i: int|
            0 <= i < cols * rows && i / (cols as int) == sy && ({
                let x = i % (cols as int);
                let d = if x >= sx { x - sx } else { sx - x };
                0 < d < h_len && alpha as int - d * (150int / (if h_len > 1 { h_len as int } else { 1 }))
                    > 15
            }) implies {
                let x = i % (cols as int);
                let d = if x >= sx { x - sx } else { sx - x };
                &&& blend.ensures(
                    (
                        old_grid[i].fg,
                        (alpha as int - d * (150int / (if h_len > 1 { h_len as int } else { 1 }))) as u8,
                    ),
                    (#[trigger] grid@[i]).fg,
                )
                &&& grid@[i].ch == (if old_grid[i].ch == ' ' { '─' } else { old_grid[i].ch })
            } by {
            assert(streak_cell_drawn(old_grid, grid@, *blend, cols as int, rows as int, sx as int, sy as int, h_len as int, alpha, dx as int, i));
        }
        assert forall|i: int|
            0 <= i < grid@.len() && !(i < cols * rows && i / (cols as int) == sy && ({
                let x = i % (cols as int);
                let d = if x >= sx { x - sx } else { sx - x };
                0 < d < h_len && alpha as int - d * (150int / (if h_len > 1 { h_len as int } else { 1 }))
                    > 15
            })) implies #[trigger] grid@[i] == old_grid[i] by {
            assert(streak_cell_drawn(old_grid, grid@, *blend, cols as int, rows as int, sx as int, sy as int, h_len as int, alpha, dx as int, i));
        }
    }
}


/// The fade of a star's flare stroke `d` cells from the star, starting at
/// intensity `alpha` and dropping by `step` per cell, never below zero.
pub open spec fn stroke_fade(alpha: u8, d: int, step: int) -> int {
    if alpha >= d * step { alpha - d * step } else { 0 }
}

/// Grid index `i` is a cell of the horizontal stroke of a star flare at
/// column `sx`, row `sy` that gets drawn: in that row, one to eleven columns
/// away, where the fade (`alpha` less nine per column) is above 10, the
/// row is above the building in that column, and the cell shows empty space
/// or a horizontal stroke.
pub open spec fn on_star_stroke_h(
    before: Seq<TerminalCell>,
    heights: Seq<usize>,
    cols: int,
    rows: int,
    sx: int,
    sy: int,
    alpha: u8,
    i: int,
) -> bool {
    &&& cols > 0
    &&& 0 <= i < cols * rows
    &&& row_of(cols, i) == sy
    &&& 0 < col_dist(col_of(cols, i), sx) < 12
    &&& stroke_fade(alpha, col_dist(col_of(cols, i), sx), 9) > 10
    &&& mirror_row(rows, sy) >= heights[col_of(cols, i)]
    &&& (before[i].ch == ' ' || before[i].ch == '─')
}

/// Grid index `i` is a cell of the vertical stroke of a star flare at
/// column `sx`, row `sy` that gets drawn: in that column, one to four rows
/// away, where the fade (`alpha` less sixteen per row) is above 10, the row
/// is above the building in the star's column, and the cell shows empty
/// space or a vertical stroke.
pub open spec fn on_star_stroke_v(
    before: Seq<TerminalCell>,
    heights: Seq<usize>,
    cols: int,
    rows: int,
    sx: int,
    sy: int,
    alpha: u8,
    i: int,
) -> bool {
    &&& cols > 0
    &&& 0 <= i < cols * rows
    &&& col_of(cols, i) == sx
    &&& 0 < col_dist(row_of(cols, i), sy) < 5
    &&& stroke_fade(alpha, col_dist(row_of(cols, i), sy), 16) > 10
    &&& mirror_row(rows, row_of(cols, i)) >= heights[sx]
    &&& (before[i].ch == ' ' || before[i].ch == '│')
}

/// `after` is `before` redrawn as stroke glyph `ch` in the colour `color`
/// gives for fade `fade`, keeping background and boldness.
pub open spec fn stroked<F: Fn(u8) -> Rgb>(before: TerminalCell, after: TerminalCell, ch: char, color: F, fade: int) -> bool {
    &&& after.ch == ch
    &&& color.ensures((fade as u8,), after.fg)
    &&& after.bg == before.bg
    &&& after.bold == before.bold
}

/// Redraws cell `idx` as stroke glyph `ch` coloured for fade `fade`.
fn stroke_cell<F: Fn(u8) -> Rgb>(grid: &mut Vec<TerminalCell>, idx: usize, ch: char, color: &F, fade: u8)
    requires
        idx < old(grid)@.len(),
        forall|f: u8| color.requires((f,)),
    ensures
        final(grid)@.len() == old(grid)@.len(),
        stroked(old(grid)@[idx as int], final(grid)@[idx as int], ch, *color, fade as int),
        forall|j: int| 0 <= j < final(grid)@.len() && j != idx ==> final(grid)@[j] == old(grid)@[j],
{
    let cell = grid[idx];
    let fg = color(fade);
    store(grid, idx, TerminalCell { ch, fg, bg: cell.bg, bold: cell.bold });
}

/// Cell `i` of `after` is the horizontal stroke drawn over `before` when it
/// is on the stroke less than `d` columns away, and unchanged otherwise.
pub open spec fn stroke_h_cell<F: Fn(u8) -> Rgb>(
    before: Seq<TerminalCell>,
    after: Seq<TerminalCell>,
    heights: Seq<usize>,
    color: F,
    cols: int,
    rows: int,
    sx: int,
    sy: int,
    alpha: u8,
    d: int,
    i: int,
) -> bool {
    if on_star_stroke_h(before, heights, cols, rows, sx, sy, alpha, i) && col_dist(col_of(cols, i), sx) < d {
        stroked(before[i], after[i], '─', color, stroke_fade(alpha, col_dist(col_of(cols, i), sx), 9))
    } else {
        after[i] == before[i]
    }
}

/// Cell `i` of `after` is the vertical stroke drawn over `before` when it
/// is on the stroke less than `d` rows away, and unchanged otherwise.
pub open spec fn stroke_v_cell<F: Fn(u8) -> Rgb>(
    before: Seq<TerminalCell>,
    after: Seq<TerminalCell>,
    heights: Seq<usize>,
    color: F,
    cols: int,
    rows: int,
    sx: int,
    sy: int,
    alpha: u8,
    d: int,
    i: int,
) -> bool {
    if on_star_stroke_v(before, heights, cols, rows, sx, sy, alpha, i) && col_dist(row_of(cols, i), sy) < d {
        stroked(before[i], after[i], '│', color, stroke_fade(alpha, col_dist(row_of(cols, i), sy), 16))
    } else {
        after[i] == before[i]
    }
}

/// Draws the horizontal stroke of a star flare (see `on_star_stroke_h`).
fn star_stroke_h<F: Fn(u8) -> Rgb>(
    grid: &mut Vec<TerminalCell>,
    heights: &Vec<usize>,
    cols: usize,
    rows: usize,
    sx: usize,
    sy: usize,
    alpha: u8,
    color: &F,
)
    requires
        cols * rows <= old(grid)@.len(),
        cols <= heights@.len(),
        sx < cols,
        sy < rows,
        forall|f: u8| color.requires((f,)),
    ensures
        final(grid)@.len() == old(grid)@.len(),
        forall|i: int|
            0 <= i < final(grid)@.len() ==> #[trigger] stroke_h_cell(
                old(grid)@,
                final(grid)@,
                heights@,
                *color,
                cols as int,
                rows as int,
                sx as int,
                sy as int,
                alpha,
                12,
                i,
            ),
{
    let ghost old_grid = grid@;
    let glen = grid.len();
    let above = mirror(rows, sy);
    let mut dx: usize = 1;
    while dx < 12
        invariant
            cols * rows <= grid@.len(),
            cols <= heights@.len(),
            glen == grid@.len(),
            old_grid.len() == grid@.len(),
            sx < cols,
            sy < rows,
            1 <= dx <= 12,
            above == mirror_row(rows as int, sy as int),
            forall|f: u8| color.requires((f,)),
            forall|i: int|
                0 <= i < grid@.len() ==> #[trigger] stroke_h_cell(
                    old_grid,
                    grid@,
                    heights@,
                    *color,
                    cols as int,
                    rows as int,
                    sx as int,
                    sy as int,
                    alpha,
                    dx as int,
                    i,
                ),
        decreases 12 - dx,
    {
        let fade = alpha.saturating_sub((dx * 9) as u8);
        let ghost before = grid@;
        if fade > 10 && dx < cols - sx {
            let idx = cell_at(cols, rows, sx + dx, sy, glen);
            let ch = grid[idx].ch;
            if above >= heights[sx + dx] && (ch == ' ' || ch == '─') {
                stroke_cell(grid, idx, '─', color, fade);
            }
        }
        if fade > 10 && sx >= dx {
            let idx = cell_at(cols, rows, sx - dx, sy, glen);
            let ch = grid[idx].ch;
            if above >= heights[sx - dx] && (ch == ' ' || ch == '─') {
                stroke_cell(grid, idx, '─', color, fade);
            }
        }
        proof {
            assert forall|i: int| 0 <= i < grid@.len() implies #[trigger] stroke_h_cell(
                old_grid,
                grid@,
                heights@,
                *color,
                cols as int,
                rows as int,
                sx as int,
                sy as int,
                alpha,
                dx + 1,
                i,
            ) by {
                assert(stroke_h_cell(old_grid, before, heights@, *color, cols as int, rows as int, sx as int, sy as int, alpha, dx as int, i));
                if cols > 0 && 0 <= i < cols * rows {
                    lemma_index_cell(cols as int, rows as int, i);
                    if row_of(cols as int, i) == sy && col_of(cols as int, i) == sx + dx && dx < cols - sx {
                        crate::geometry::lemma_cell_index(cols as int, rows as int, (sx + dx) as int, sy as int);
                        lemma_index_unique(cols as int, rows as int, i, cell_index(cols as int, (sx + dx) as int, sy as int));
                    }
                    if row_of(cols as int, i) == sy && col_of(cols as int, i) == sx - dx && sx >= dx {
                        crate::geometry::lemma_cell_index(cols as int, rows as int, (sx - dx) as int, sy as int);
                        lemma_index_unique(cols as int, rows as int, i, cell_index(cols as int, (sx - dx) as int, sy as int));
                    }
                }
            }
        }
        dx = dx + 1;
    }
}

/// Draws the vertical stroke of a star flare (see `on_star_stroke_v`).
fn star_stroke_v<F: Fn(u8) -> Rgb>(
    grid: &mut Vec<TerminalCell>,
    heights: &Vec<usize>,
    cols: usize,
    rows: usize,
    sx: usize,
    sy: usize,
    alpha: u8,
    color: &F,
)
    requires
        cols * rows <= old(grid)@.len(),
        cols <= heights@.len(),
        sx < cols,
        sy < rows,
        forall|f: u8| color.requires((f,)),
    ensures
        final(grid)@.len() == old(grid)@.len(),
        forall|i: int|
            0 <= i < final(grid)@.len() ==> #[trigger] stroke_v_cell(
                old(grid)@,
                final(grid)@,
                heights@,
                *color,
                cols as int,
                rows as int,
                sx as int,
                sy as int,
                alpha,
                5,
                i,
            ),
{
    let ghost old_grid = grid@;
    let glen = grid.len();
    let floor = heights[sx];
    let mut dy: usize = 1;
    while dy < 5
        invariant
            cols * rows <= grid@.len(),
            cols <= heights@.len(),
            glen == grid@.len(),
            old_grid.len() == grid@.len(),
            sx < cols,
            sy < rows,
            1 <= dy <= 5,
            floor == heights@[sx as int],
            forall|f: u8| color.requires((f,)),
            forall|i: int|
                0 <= i < grid@.len() ==> #[trigger] stroke_v_cell(
                    old_grid,
                    grid@,
                    heights@,
                    *color,
                    cols as int,
                    rows as int,
                    sx as int,
                    sy as int,
                    alpha,
                    dy as int,
                    i,
                ),
        decreases 5 - dy,
    {
        let fade = alpha.saturating_sub((dy * 16) as u8);
        let ghost before = grid@;
        if fade > 10 && dy < rows - sy {
            let idx = cell_at(cols, rows, sx, sy + dy, glen);
            let ch = grid[idx].ch;
            if mirror(rows, sy + dy) >= floor && (ch == ' ' || ch == '│') {
                stroke_cell(grid, idx, '│', color, fade);
            }
        }
        if fade > 10 && sy >= dy {
            let idx = cell_at(cols, rows, sx, sy - dy, glen);
            let ch = grid[idx].ch;
            if mirror(rows, sy - dy) >= floor && (ch == ' ' || ch == '│') {
                stroke_cell(grid, idx, '│', color, fade);
            }
        }
        proof {
            assert forall|i: int| 0 <= i < grid@.len() implies #[trigger] stroke_v_cell(
                old_grid,
                grid@,
                heights@,
                *color,
                cols as int,
                rows as int,
                sx as int,
                sy as int,
                alpha,
                dy + 1,
                i,
            ) by {
                assert(stroke_v_cell(old_grid, before, heights@, *color, cols as int, rows as int, sx as int, sy as int, alpha, dy as int, i));
                if cols > 0 && 0 <= i < cols * rows {
                    lemma_index_cell(cols as int, rows as int, i);
                    if col_of(cols as int, i) == sx && row_of(cols as int, i) == sy + dy && dy < rows - sy {
                        crate::geometry::lemma_cell_index(cols as int, rows as int, sx as int, (sy + dy) as int);
                        lemma_index_unique(cols as int, rows as int, i, cell_index(cols as int, sx as int, (sy + dy) as int));
                    }
                    if col_of(cols as int, i) == sx && row_of(cols as int, i) == sy - dy && sy >= dy {
                        crate::geometry::lemma_cell_index(cols as int, rows as int, sx as int, (sy - dy) as int);
                        lemma_index_unique(cols as int, rows as int, i, cell_index(cols as int, sx as int, (sy - dy) as int));
                    }
                }
            }
        }
        dy = dy + 1;
    }
}


/// Draws the flare of an excited star at column `sx`, row `sy`: a horizontal
/// stroke reaching up to eleven columns to each side, its intensity
/// `alpha_h` dropping by nine per column, and a vertical stroke reaching up
/// to four rows up and down, its intensity `alpha_v` dropping by sixteen per
/// row. A stroke cell is drawn where its intensity is still above 10, where
/// it is above the skyline and where the cell shows empty space or a stroke
/// of the same direction; it takes the stroke glyph and the colour that
/// `color_h` or `color_v` gives for its intensity. No other cell changes.
pub fn star_flare<H: Fn(u8) -> Rgb, V: Fn(u8) -> Rgb>(
    grid: &mut Vec<TerminalCell>,
    heights: &Vec<usize>,
    cols: usize,
    rows: usize,
    sx: usize,
    sy: usize,
    alpha_h: u8,
    alpha_v: u8,
    color_h: &H,
    color_v: &V,
)
    requires
        cols * rows <= old(grid)@.len(),
        cols <= heights@.len(),
        sx < cols,
        sy < rows,
        forall|f: u8| color_h.requires((f,)),
        forall|f: u8| color_v.requires((f,)),
    ensures
        final(grid)@.len() == old(grid)@.len(),
        forall|i: int|
            0 <= i < final(grid)@.len() ==> if #[trigger] on_star_stroke_h(
                old(grid)@,
                heights@,
                cols as int,
                rows as int,
                sx as int,
                sy as int,
                alpha_h,
                i,
            ) {
                stroked(
                    old(grid)@[i],
                    final(grid)@[i],
                    '─',
                    *color_h,
                    stroke_fade(alpha_h, col_dist(col_of(cols as int, i), sx as int), 9),
                )
            } else if on_star_stroke_v(old(grid)@, heights@, cols as int, rows as int, sx as int, sy as int, alpha_v, i) {
                stroked(
                    old(grid)@[i],
                    final(grid)@[i],
                    '│',
                    *color_v,
                    stroke_fade(alpha_v, col_dist(row_of(cols as int, i), sy as int), 16),
                )
            } else {
                final(grid)@[i] == old(grid)@[i]
            },
        // stated on the grid itself: the horizontal stroke covers only
        // space or a horizontal stroke, in the star's row, up to eleven
        // columns away while `alpha_h - 9 d` is above 10 and the row is above
        // the building there; the vertical stroke covers only space or a
        // vertical stroke, in the star's column, up to four rows away while
        // `alpha_v - 16 d` is above 10 and the row is above the building
        // under the star
        forall|i: int|
            0 <= i < cols * rows && (i / (cols as int) == sy && ({
                let x = i % (cols as int);
                let d = if x >= sx { x - sx } else { sx - x };
                &&& 0 < d < 12
                &&& alpha_h as int > 9 * d + 10
                &&& rows - 1 - sy >= heights@[x]
                &&& (old(grid)@[i].ch == ' ' || old(grid)@[i].ch == '─')
            })) ==> {
                let x = i % (cols as int);
                let d = if x >= sx { x - sx } else { sx - x };
                &&& (#[trigger] final(grid)@[i]).ch == '─'
                &&& color_h.ensures(((alpha_h as int - 9 * d) as u8,), final(grid)@[i].fg)
                &&& final(grid)@[i].bg == old(grid)@[i].bg
                &&& final(grid)@[i].bold == old(grid)@[i].bold
            },
        forall|i: int|
            0 <= i < cols * rows && (i % (cols as int) == sx && ({
                let y = i / (cols as int);
                let d = if y >= sy { y - sy } else { sy - y };
                &&& 0 < d < 5
                &&& alpha_v as int > 16 * d + 10
                &&& rows - 1 - y >= heights@[sx as int]
                &&& (old(grid)@[i].ch == ' ' || old(grid)@[i].ch == '│')
            })) ==> {
                let y = i / (cols as int);
                let d = if y >= sy { y - sy } else { sy - y };
                &&& (#[trigger] final(grid)@[i]).ch == '│'
                &&& color_v.ensures(((alpha_v as int - 16 * d) as u8,), final(grid)@[i].fg)
                &&& final(grid)@[i].bg == old(grid)@[i].bg
                &&& final(grid)@[i].bold == old(grid)@[i].bold
            },
        forall|i: int|
            0 <= i < final(grid)@.len() && !(i < cols * rows && ((i / (cols as int) == sy && ({
                let x = i % (cols as int);
                let d = if x >= sx { x - sx } else { sx - x };
                &&& 0 < d < 12
                &&& alpha_h as int > 9 * d + 10
                &&& rows - 1 - sy >= heights@[x]
                &&& (old(grid)@[i].ch == ' ' || old(grid)@[i].ch == '─')
            })) || (i % (cols as int) == sx && ({
                let y = i / (cols as int);
                let d = if y >= sy { y - sy } else { sy - y };
                &&& 0 < d < 5
                &&& alpha_v as int > 16 * d + 10
                &&& rows - 1 - y >= heights@[sx as int]
                &&& (old(grid)@[i].ch == ' ' || old(grid)@[i].ch == '│')
            })))) ==> #[trigger] final(grid)@[i]
                == old(grid)@[i],
        // in particular a cell showing anything but space or a stroke keeps it
        forall|i: int|
            0 <= i < final(grid)@.len() && old(grid)@[i].ch != ' ' && old(grid)@[i].ch != '─' && old(grid)@[i].ch != '│'
                ==> #[trigger] final(grid)@[i] == old(grid)@[i],
{
    let ghost old_grid = grid@;
    star_stroke_h(grid, heights, cols, rows, sx, sy, alpha_h, color_h);
    let ghost mid = grid@;
    star_stroke_v(grid, heights, cols, rows, sx, sy, alpha_v, color_v);
    proof {
        assert forall|i: int| 0 <= i < grid@.len() implies if #[trigger] on_star_stroke_h(
                old_grid,
                heights@,
                cols as int,
                rows as int,
                sx as int,
                sy as int,
                alpha_h,
                i,
            ) {
                stroked(
                    old_grid[i],
                    grid@[i],
                    '─',
                    *color_h,
                    stroke_fade(alpha_h, col_dist(col_of(cols as int, i), sx as int), 9),
                )
            } else if on_star_stroke_v(old_grid, heights@, cols as int, rows as int, sx as int, sy as int, alpha_v, i) {
                stroked(
                    old_grid[i],
                    grid@[i],
                    '│',
                    *color_v,
                    stroke_fade(alpha_v, col_dist(row_of(cols as int, i), sy as int), 16),
                )
            } else {
                grid@[i] == old_grid[i]
            } by {
            if 0 <= i < cols * rows {
                lemma_index_cell(cols as int, rows as int, i);
            }
            assert(stroke_h_cell(old_grid, mid, heights@, *color_h, cols as int, rows as int, sx as int, sy as int, alpha_h, 12, i));
            assert(stroke_v_cell(mid, grid@, heights@, *color_v, cols as int, rows as int, sx as int, sy as int, alpha_v, 5, i));
        }
    }
    proof {
        reveal(col_of);
        reveal(row_of);
        assert forall|i: int|
            0 <= i < cols * rows && (i / (cols as int) == sy && ({
                let x = i % (cols as int);
                let d = if x >= sx { x - sx } else { sx - x };
                &&& 0 < d < 12
                &&& alpha_h as int > 9 * d + 10
                &&& rows - 1 - sy >= heights@[x]
                &&& (old_grid[i].ch == ' ' || old_grid[i].ch == '─')
            })) implies {
                let x = i % (cols as int);
                let d = if x >= sx { x - sx } else { sx - x };
                &&& (#[trigger] grid@[i]).ch == '─'
                &&& color_h.ensures(((alpha_h as int - 9 * d) as u8,), grid@[i].fg)
                &&& grid@[i].bg == old_grid[i].bg
                &&& grid@[i].bold == old_grid[i].bold
            } by {
            if 0 <= i < cols * rows {
                lemma_index_cell(cols as int, rows as int, i);
            }
            assert(stroke_h_cell(old_grid, mid, heights@, *color_h, cols as int, rows as int, sx as int, sy as int, alpha_h, 12, i));
            assert(stroke_v_cell(mid, grid@, heights@, *color_v, cols as int, rows as int, sx as int, sy as int, alpha_v, 5, i));
        }
        assert forall|i: int|
            0 <= i < cols * rows && (i % (cols as int) == sx && ({
                let y = i / (cols as int);
                let d = if y >= sy { y - sy } else { sy - y };
                &&& 0 < d < 5
                &&& alpha_v as int > 16 * d + 10
                &&& rows - 1 - y >= heights@[sx as int]
                &&& (old_grid[i].ch == ' ' || old_grid[i].ch == '│')
            })) implies {
                let y = i / (cols as int);
                let d = if y >= sy { y - sy } else { sy - y };
                &&& (#[trigger] grid@[i]).ch == '│'
                &&& color_v.ensures(((alpha_v as int - 16 * d) as u8,), grid@[i].fg)
                &&& grid@[i].bg == old_grid[i].bg
                &&& grid@[i].bold == old_grid[i].bold
            } by {
            if 0 <= i < cols * rows {
                lemma_index_cell(cols as int, rows as int, i);
            }
            assert(stroke_h_cell(old_grid, mid, heights@, *color_h, cols as int, rows as int, sx as int, sy as int, alpha_h, 12, i));
            assert(stroke_v_cell(mid, grid@, heights@, *color_v, cols as int, rows as int, sx as int, sy as int, alpha_v, 5, i));
        }
        assert forall|i: int|
            0 <= i < grid@.len() && !(i < cols * rows && ((i / (cols as int) == sy && ({
                let x = i % (cols as int);
                let d = if x >= sx { x - sx } else { sx - x };
                &&& 0 < d < 12
                &&& alpha_h as int > 9 * d + 10
                &&& rows - 1 - sy >= heights@[x]
                &&& (old_grid[i].ch == ' ' || old_grid[i].ch == '─')
            })) || (i % (cols as int) == sx && ({
                let y = i / (cols as int);
                let d = if y >= sy { y - sy } else { sy - y };
                &&& 0 < d < 5
                &&& alpha_v as int > 16 * d + 10
                &&& rows - 1 - y >= heights@[sx as int]
                &&& (old_grid[i].ch == ' ' || old_grid[i].ch == '│')
            })))) implies #[trigger] grid@[i]
                == old_grid[i] by {
            if 0 <= i < cols * rows {
                lemma_index_cell(cols as int, rows as int, i);
            }
            assert(stroke_h_cell(old_grid, mid, heights@, *color_h, cols as int, rows as int, sx as int, sy as int, alpha_h, 12, i));
            assert(stroke_v_cell(mid, grid@, heights@, *color_v, cols as int, rows as int, sx as int, sy as int, alpha_v, 5, i));
        }
        assert forall|i: int|
            0 <= i < grid@.len() && old_grid[i].ch != ' ' && old_grid[i].ch != '─' && old_grid[i].ch != '│'
                implies #[trigger] grid@[i] == old_grid[i] by {
            if 0 <= i < cols * rows {
                lemma_index_cell(cols as int, rows as int, i);
            }
            assert(stroke_h_cell(old_grid, mid, heights@, *color_h, cols as int, rows as int, sx as int, sy as int, alpha_h, 12, i));
            assert(stroke_v_cell(mid, grid@, heights@, *color_v, cols as int, rows as int, sx as int, sy as int, alpha_v, 5, i));
        }
    }
}


/// An explosion streak keeps every glyph but a space, which it turns into a
/// horizontal stroke, and never changes a cell's background or boldness.
pub proof fn law_streak_keeps_glyphs<F: Fn(Rgb, u8) -> Rgb>(
    before: TerminalCell,
    after: TerminalCell,
    blend: F,
    fade: int,
)
    requires
        streaked(before, after, blend, fade),
    ensures
        before.ch != ' ' ==> after.ch == before.ch,
        before.ch == ' ' ==> after.ch == '─',
        after.bg == before.bg,
        after.bold == before.bold,
{
}

/// A star's flare only covers open cells: the horizontal stroke only space
/// or a horizontal stroke, the vertical stroke only space or a vertical
/// stroke, each in the star's own row or column and never on the star.
pub proof fn law_star_strokes_spare_glyphs(
    before: Seq<TerminalCell>,
    heights: Seq<usize>,
    cols: int,
    rows: int,
    sx: int,
    sy: int,
    alpha: u8,
    i: int,
)
    ensures
        on_star_stroke_h(before, heights, cols, rows, sx, sy, alpha, i) ==> (before[i].ch == ' '
            || before[i].ch == '─') && row_of(cols, i) == sy && col_of(cols, i) != sx,
        on_star_stroke_v(before, heights, cols, rows, sx, sy, alpha, i) ==> (before[i].ch == ' '
            || before[i].ch == '│') && col_of(cols, i) == sx && row_of(cols, i) != sy,
{
}

} // verus!
