use vstd::prelude::*;
use crate::cell::{Rgb, TerminalCell, store};
use crate::geometry::{cell_at, col_of, row_of, lemma_cell_index, lemma_index_unique};

verus! {

/// Where the centered logo stands: the grid column and row of its top-left
/// corner, and its lines of text.
pub struct LogoPlacement {
    pub x: usize,
    pub y: usize,
    pub lines: Vec<Vec<char>>,
}

/// The dimmed accent channel that unlit logo text takes: 15% of the accent,
/// rounded down.
pub open spec fn dim_channel(a: u8) -> int {
    a * 3 / 20
}

/// The colour of unlit logo text: each accent channel at 15%, rounded down.
pub open spec fn dimmed(accent: Rgb) -> Rgb {
    (dim_channel(accent.0) as u8, dim_channel(accent.1) as u8, dim_channel(accent.2) as u8)
}

/// The colour of unlit logo text: each accent channel at 15%, rounded down.
pub fn dim_accent(accent: Rgb) -> (c: Rgb)
    ensures
        c == dimmed(accent),
        c.0 == dim_channel(accent.0),
        c.1 == dim_channel(accent.1),
        c.2 == dim_channel(accent.2),
        c.0 == accent.0 as int * 3 / 20,
        c.1 == accent.1 as int * 3 / 20,
        c.2 == accent.2 as int * 3 / 20,
{
    let r: u32 = (accent.0 as u32) * 3 / 20;
    let g: u32 = (accent.1 as u32) * 3 / 20;
    let b: u32 = (accent.2 as u32) * 3 / 20;
    (r as u8, g as u8, b as u8)
}

/// The logo character drawn at column `gx`, row `gy` of a `cols` by `rows`
/// grid, if any: the text character there when it lies inside the grid and
/// is not a space.
pub open spec fn logo_glyph(p: LogoPlacement, cols: int, rows: int, gx: int, gy: int) -> Option<char> {
    if p.y <= gy < rows && p.x <= gx < cols && gy - p.y < p.lines@.len() && gx - p.x
        < p.lines@[gy - p.y]@.len() && p.lines@[gy - p.y]@[gx - p.x] != ' ' {
        Some(p.lines@[gy - p.y]@[gx - p.x])
    } else {
        None
    }
}

/// The logo character drawn at grid index `i`, if any.
pub open spec fn logo_glyph_at(logo: Option<LogoPlacement>, cols: int, rows: int, i: int) -> Option<char> {
    match logo {
        Some(p) => if cols > 0 && 0 <= i < cols * rows {
            logo_glyph(p, cols, rows, col_of(cols, i), row_of(cols, i))
        } else {
            None
        },
        None => None,
    }
}

/// The cell at grid index `i` shows logo character `ch` lit as `light`
/// answers for its column and row and the dimmed accent.
pub open spec fn logo_cell<F: Fn(usize, usize, Rgb) -> (Rgb, bool)>(
    cell: TerminalCell,
    ch: char,
    light: F,
    cols: int,
    i: int,
    accent: Rgb,
) -> bool {
    &&& cell.ch == ch
    &&& cell.bg == (0u8, 0u8, 0u8)
    &&& light.ensures(
        (col_of(cols, i) as usize, row_of(cols, i) as usize, dimmed(accent)),
        (cell.fg, cell.bold),
    )
}

/// Draws the logo cells as `logo_glyph_at` and `logo_cell` describe them.
fn overlay_logo<F: Fn(usize, usize, Rgb) -> (Rgb, bool)>(
    logo: &Option<LogoPlacement>,
    light: &F,
    grid: &mut Vec<TerminalCell>,
    cols: usize,
    rows: usize,
    accent: Rgb,
)
    requires
        cols * rows <= old(grid)@.len(),
        forall|gx: usize, gy: usize, dim: Rgb| light.requires((gx, gy, dim)),
    ensures
        final(grid)@.len() == old(grid)@.len(),
        forall|i: int|
            0 <= i < final(grid)@.len() ==> match #[trigger] logo_glyph_at(*logo, cols as int, rows as int, i) {
                Some(ch) => logo_cell(final(grid)@[i], ch, *light, cols as int, i, accent),
                None => final(grid)@[i] == old(grid)@[i],
            },
{
    let dim = dim_accent(accent);
    let glen = grid.len();
    let ghost old_grid = grid@;
    let p = match logo {
        Some(p) => p,
        None => {
            return;
        },
    };
    if p.y >= rows || p.x >= cols {
        assert forall|i: int| 0 <= i < grid@.len() implies logo_glyph_at(*logo, cols as int, rows as int, i) is None by {
        }
        return;
    }
    let nlines = p.lines.len();
    let vis_rows: usize = if nlines < rows - p.y { nlines } else { rows - p.y };
    let mut r: usize = 0;
    while r < vis_rows
        invariant
            0 <= p.y < rows,
            0 <= p.x < cols,
            nlines == p.lines@.len(),
            vis_rows <= nlines,
            vis_rows <= rows - p.y,
            r <= vis_rows,
            *logo == Some(*p),
            cols * rows <= grid@.len(),
            glen == grid@.len(),
            grid@.len() == old_grid.len(),
            dim == dimmed(accent),
            forall|gx: usize, gy: usize, d: Rgb| light.requires((gx, gy, d)),
            forall|i: int|
                0 <= i < grid@.len() ==> match #[trigger] logo_glyph_at(*logo, cols as int, rows as int, i) {
                    Some(ch) => if row_of(cols as int, i) - p.y < r {
                        logo_cell(grid@[i], ch, *light, cols as int, i, accent)
                    } else {
                        grid@[i] == old_grid[i]
                    },
                    None => grid@[i] == old_grid[i],
                },
        decreases vis_rows - r,
    {
        let line = &p.lines[r];
        let gy = p.y + r;
        let ncols = line.len();
        let vis_cols: usize = if ncols < cols - p.x { ncols } else { cols - p.x };
        let mut c: usize = 0;
        while c < vis_cols
            invariant
                0 <= p.y < rows,
                0 <= p.x < cols,
                nlines == p.lines@.len(),
                r < vis_rows,
                vis_rows <= nlines,
                vis_rows <= rows - p.y,
                gy == p.y + r,
                *line == p.lines@[r as int],
                ncols == line@.len(),
                vis_cols <= ncols,
                vis_cols <= cols - p.x,
                c <= vis_cols,
                *logo == Some(*p),
                cols * rows <= grid@.len(),
                glen == grid@.len(),
                grid@.len() == old_grid.len(),
                dim == dimmed(accent),
                forall|gx: usize, gy: usize, d: Rgb| light.requires((gx, gy, d)),
                forall|i: int|
                    0 <= i < grid@.len() ==> match #[trigger] logo_glyph_at(*logo, cols as int, rows as int, i) {
                        Some(ch) => if row_of(cols as int, i) - p.y < r || (row_of(cols as int, i) - p.y == r && col_of(cols as int, i) - p.x < c) {
                            logo_cell(grid@[i], ch, *light, cols as int, i, accent)
                        } else {
                            grid@[i] == old_grid[i]
                        },
                        None => grid@[i] == old_grid[i],
                    },
            decreases vis_cols - c,
        {
            let ch = line[c];
            let gx = p.x + c;
            let idx = cell_at(cols, rows, gx, gy, glen);
            if ch != ' ' {
                let (fg, bold) = light(gx, gy, dim);
                store(grid, idx, TerminalCell { ch, fg, bg: (0, 0, 0), bold });
                assert(logo_glyph_at(*logo, cols as int, rows as int, idx as int) == Some(ch));
            }
            proof {
                assert forall|i: int|
                    0 <= i < grid@.len() implies match #[trigger] logo_glyph_at(*logo, cols as int, rows as int, i) {
                        Some(ch) => if row_of(cols as int, i) - p.y < r || (row_of(cols as int, i) - p.y == r && col_of(cols as int, i) - p.x < c + 1) {
                            logo_cell(grid@[i], ch, *light, cols as int, i, accent)
                        } else {
                            grid@[i] == old_grid[i]
                        },
                        None => grid@[i] == old_grid[i],
                    } by {
                    if i != idx && logo_glyph_at(*logo, cols as int, rows as int, i) is Some
                        && row_of(cols as int, i) == gy && col_of(cols as int, i) == gx {
                        lemma_index_unique(cols as int, rows as int, i, idx as int);
                    }
                }
            }
            c = c + 1;
        }
        proof {
            assert forall|i: int|
                0 <= i < grid@.len() implies match #[trigger] logo_glyph_at(*logo, cols as int, rows as int, i) {
                    Some(ch) => if row_of(cols as int, i) - p.y < r + 1 {
                        logo_cell(grid@[i], ch, *light, cols as int, i, accent)
                    } else {
                        grid@[i] == old_grid[i]
                    },
                    None => grid@[i] == old_grid[i],
                } by {
            }
        }
        r = r + 1;
    }
    proof {
        assert forall|i: int|
            0 <= i < grid@.len() implies match #[trigger] logo_glyph_at(*logo, cols as int, rows as int, i) {
                Some(ch) => logo_cell(grid@[i], ch, *light, cols as int, i, accent),
                None => grid@[i] == old_grid[i],
            } by {
        }
    }
}

/// Draws the centered logo over the grid. Each non-space character of the
/// logo that falls inside the `cols` by `rows` grid replaces the cell there,
/// on a black background, with the colour and boldness that `light` gives
/// for that column and row (the explosions' light on the dimmed accent).
/// Every other cell is left as it was; with no logo placed nothing changes.
pub fn draw_logo<F: Fn(usize, usize, Rgb) -> (Rgb, bool)>(
    logo: &Option<LogoPlacement>,
    light: &F,
    grid: &mut Vec<TerminalCell>,
    cols: usize,
    rows: usize,
    accent: Rgb,
)
    requires
        cols * rows <= old(grid)@.len(),
        forall|gx: usize, gy: usize, dim: Rgb| light.requires((gx, gy, dim)),
    ensures
        final(grid)@.len() == old(grid)@.len(),
        forall|i: int|
            0 <= i < final(grid)@.len() ==> match #[trigger] logo_glyph_at(*logo, cols as int, rows as int, i) {
                Some(ch) => logo_cell(final(grid)@[i], ch, *light, cols as int, i, accent),
                None => final(grid)@[i] == old(grid)@[i],
            },
        // every visible character of every line shows at its place
        match *logo {
            Some(p) => forall|k: int, j: int|
                0 <= k < p.lines@.len() && p.y + k < rows && 0 <= j < p.lines@[k]@.len() && p.x + j
                    < cols && #[trigger] p.lines@[k]@[j] != ' ' ==> {
                    let cell = final(grid)@[(p.y + k) * cols + p.x + j];
                    &&& cell.ch == p.lines@[k]@[j]
                    &&& cell.bg == (0u8, 0u8, 0u8)
                    &&& light.ensures(
                        (
                            (p.x + j) as usize,
                            (p.y + k) as usize,
                            (
                                (accent.0 as int * 3 / 20) as u8,
                                (accent.1 as int * 3 / 20) as u8,
                                (accent.2 as int * 3 / 20) as u8,
                            ),
                        ),
                        (cell.fg, cell.bold),
                    )
                },
            None => final(grid)@ == old(grid)@,
        },
        // cells outside the grid, outside the text, or under a space keep their state
        forall|i: int| cols * rows <= i < final(grid)@.len() ==> #[trigger] final(grid)@[i] == old(grid)@[i],
        match *logo {
            Some(p) => forall|i: int|
                0 <= i < cols * rows && (i / (cols as int) < p.y || i / (cols as int) - p.y >= p.lines@.len()
                    || i % (cols as int) < p.x || i % (cols as int) - p.x >= p.lines@[i / (cols as int)
                    - p.y]@.len() || p.lines@[i / (cols as int) - p.y]@[i % (cols as int) - p.x] == ' ')
                    ==> #[trigger] final(grid)@[i] == old(grid)@[i],
            None => true,
        },
{
    let ghost old_grid = grid@;
    let ghost lg = *logo;
    overlay_logo(logo, light, grid, cols, rows, accent);
    proof {
        reveal(col_of);
        reveal(row_of);
        assert forall|i: int| cols * rows <= i < grid@.len() implies #[trigger] grid@[i] == old_grid[i] by {
            assert(logo_glyph_at(*logo, cols as int, rows as int, i) is None);
        }
        match lg {
            Some(p) => {
                assert forall|k: int, j: int|
                    0 <= k < p.lines@.len() && p.y + k < rows && 0 <= j < p.lines@[k]@.len() && p.x + j
                        < cols && #[trigger] p.lines@[k]@[j] != ' ' implies {
                        let cell = grid@[(p.y + k) * cols + p.x + j];
                        &&& cell.ch == p.lines@[k]@[j]
                        &&& cell.bg == (0u8, 0u8, 0u8)
                        &&& light.ensures(
                            (
                                (p.x + j) as usize,
                                (p.y + k) as usize,
                                (
                                    (accent.0 as int * 3 / 20) as u8,
                                    (accent.1 as int * 3 / 20) as u8,
                                    (accent.2 as int * 3 / 20) as u8,
                                ),
                            ),
                            (cell.fg, cell.bold),
                        )
                    } by {
                    law_logo_draws_every_line(p, cols as int, rows as int, k, j);
                    let idx = (p.y + k) * cols + p.x + j;
                    lemma_cell_index(cols as int, rows as int, p.x + j, p.y + k);
                    assert(logo_glyph_at(*logo, cols as int, rows as int, idx) == Some(p.lines@[k]@[j]));
                }
                assert forall|i: int|
                    0 <= i < cols * rows && (i / (cols as int) < p.y || i / (cols as int) - p.y >= p.lines@.len()
                        || i % (cols as int) < p.x || i % (cols as int) - p.x >= p.lines@[i / (cols as int)
                        - p.y]@.len() || p.lines@[i / (cols as int) - p.y]@[i % (cols as int) - p.x] == ' ')
                        implies #[trigger] grid@[i] == old_grid[i] by {
                    assert(logo_glyph_at(*logo, cols as int, rows as int, i) is None);
                }
            },
            None => {
                assert(grid@ =~= old_grid) by {
                    assert forall|i: int| 0 <= i < grid@.len() implies grid@[i] == old_grid[i] by {
                        assert(logo_glyph_at(*logo, cols as int, rows as int, i) is None);
                    }
                }
            },
        }
    }
}

/// Every line of the logo is drawn: each non-space character `k` lines
/// down and `j` columns across from the logo's corner that falls inside the
/// grid is the logo character of its cell.
pub proof fn law_logo_draws_every_line(p: LogoPlacement, cols: int, rows: int, k: int, j: int)
    requires
        0 <= k < p.lines@.len(),
        p.y + k < rows,
        0 <= j < p.lines@[k]@.len(),
        p.x + j < cols,
        p.lines@[k]@[j] != ' ',
    ensures
        logo_glyph_at(Some(p), cols, rows, (p.y + k) * cols + p.x + j) == Some(p.lines@[k]@[j]),
{
    lemma_cell_index(cols, rows, p.x + j, p.y + k);
}

} // verus!
