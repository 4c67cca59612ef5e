use vstd::prelude::*;
use crate::cell::{Rgb, TerminalCell, store};
use crate::geometry::{cell_at, col_of, row_of, lemma_index_cell, lemma_index_unique};

verus! {

/// The row `x` rows up from the bottom row of a grid `rows` tall, stopping at
/// the top row; read the other way it is the height of row `x` above the
/// bottom row (`rows - 1 - x`, never below zero).
pub open spec fn mirror_row(rows: int, x: int) -> int {
    let top = if rows > 0 { rows - 1 } else { 0 };
    if x <= top { top - x } else { 0 }
}

/// The row `x` rows up from the bottom row, or the height of row `x` above
/// the bottom row: `rows - 1 - x`, saturating at zero on both subtractions.
pub fn mirror(rows: usize, x: usize) -> (y: usize)
    ensures
        y == mirror_row(rows as int, x as int),
        y == (if rows as int - 1 - x as int >= 0 { rows as int - 1 - x as int } else { 0 }),
{
    rows.saturating_sub(1).saturating_sub(x)
}

/// Some level below `n` of the building column `lit_col` has a lit window
/// that lands in row `gy`.
pub open spec fn lit_below(lit_col: Seq<bool>, rows: int, gy: int, n: int) -> bool {
    exists|r: int| 0 <= r < n && #[trigger] lit_col[r] && mirror_row(rows, r) == gy
}

/// Adding level `n` to the levels looked at adds exactly that level's window.
pub proof fn lemma_lit_below_step(lit_col: Seq<bool>, rows: int, gy: int, n: int)
    requires
        0 <= n < lit_col.len(),
    ensures
        lit_below(lit_col, rows, gy, n + 1) == (lit_below(lit_col, rows, gy, n) || (lit_col[n]
            && mirror_row(rows, n) == gy)),
{
    if lit_below(lit_col, rows, gy, n + 1) {
        let r = choose|r: int| 0 <= r < n + 1 && #[trigger] lit_col[r] && mirror_row(rows, r) == gy;
        if r < n {
            assert(lit_below(lit_col, rows, gy, n));
        }
    }
    if lit_below(lit_col, rows, gy, n) {
        let r = choose|r: int| 0 <= r < n && #[trigger] lit_col[r] && mirror_row(rows, r) == gy;
        assert(0 <= r < n + 1 && lit_col[r] && mirror_row(rows, r) == gy);
    }
    if lit_col[n] && mirror_row(rows, n) == gy {
        assert(0 <= n < n + 1 && lit_col[n] && mirror_row(rows, n) == gy);
    }
}

/// Whether a skyline is raised at all: not in the empty-sky style (style
/// option 1), not on a grid under four rows tall or with no columns, and not
/// on a secondary monitor.
pub fn skyline_allowed(style_opt: u32, cols: usize, rows: usize, secondary_monitor: bool) -> (b: bool)
    ensures
        b == !(style_opt == 1 || rows < 4 || cols == 0 || secondary_monitor),
{
    !(style_opt == 1 || rows < 4 || cols == 0 || secondary_monitor)
}

/// The city skyline: the height of the building in each column and, for
/// each cell of the `cols` by `rows` grid (row-major), whether a window is
/// lit there.
pub struct Skyline {
    pub cols: usize,
    pub rows: usize,
    pub heights: Vec<usize>,
    pub windows: Vec<bool>,
}

impl Skyline {
    /// One height per column and one window flag per grid cell.
    pub open spec fn wf(&self) -> bool {
        &&& self.heights@.len() == self.cols
        &&& self.windows@.len() == self.cols * self.rows
    }

    /// Column `c` lies in the building of `width` columns starting at
    /// `start`, cut off at `end_col`.
    pub open spec fn in_building(start: int, end_col: int, width: int, c: int) -> bool {
        start <= c < end_col && c - start < width
    }

    /// The window at grid index `idx` is one that the building raised at
    /// `start` with these lit levels turns on.
    pub open spec fn lights(
        &self,
        start: int,
        end_col: int,
        width: int,
        height: int,
        lit: Seq<Vec<bool>>,
        idx: int,
    ) -> bool {
        let c = col_of(self.cols as int, idx);
        &&& Self::in_building(start, end_col, width, c)
        &&& lit_below(lit[c - start]@, self.rows as int, row_of(self.cols as int, idx), height)
    }

    /// Raises one building: each column from `start` on, for `width` columns
    /// but stopping before `end_col`, takes height `height`, and for each of
    /// its levels `r` below `height` the window `r` rows up from the bottom
    /// row (the top row for levels above the grid) is lit when `lit[i][r]`
    /// says so, `i` being the column's place in the building. Lit windows
    /// stay lit; other columns and windows keep their state.
    pub fn place_building(
        &mut self,
        start: usize,
        end_col: usize,
        width: usize,
        height: usize,
        lit: &Vec<Vec<bool>>,
    )
        requires
            old(self).wf(),
            old(self).rows > 0,
            end_col <= old(self).cols,
            width <= lit@.len() || end_col <= start + lit@.len(),
            forall|i: int|
                0 <= i < width && start + i < end_col ==> #[trigger] lit@[i]@.len() == height,
        ensures
            final(self).wf(),
            final(self).cols == old(self).cols,
            final(self).rows == old(self).rows,
            forall|c: int|
                0 <= c < final(self).cols ==> #[trigger] final(self).heights@[c] == if Self::in_building(
                    start as int,
                    end_col as int,
                    width as int,
                    c,
                ) {
                    height
                } else {
                    old(self).heights@[c]
                },
            forall|idx: int|
                0 <= idx < final(self).windows@.len() ==> #[trigger] final(self).windows@[idx] == (
                old(self).windows@[idx] || old(self).lights(
                    start as int,
                    end_col as int,
                    width as int,
                    height as int,
                    lit@,
                    idx,
                )),
            // stated on the vectors themselves
            forall|c: int|
                0 <= c < final(self).cols ==> #[trigger] final(self).heights@[c] == (if start <= c < end_col
                    && c < start + width {
                    height as int
                } else {
                    old(self).heights@[c] as int
                }),
            forall|idx: int|
                0 <= idx < old(self).windows@.len() && old(self).windows@[idx] ==> #[trigger] final(self).windows@[idx],
            forall|k: int, r: int|
                0 <= k < width && start + k < end_col && 0 <= r < height && #[trigger] lit@[k]@[r]
                    ==> final(self).windows@[(if r < old(self).rows as int { old(self).rows as int - 1 - r } else { 0 }) * old(self).cols + start + k],
            forall|idx: int|
                0 <= idx < final(self).windows@.len() && #[trigger] final(self).windows@[idx]
                    && !old(self).windows@[idx] ==> {
                    let c = idx % (old(self).cols as int);
                    &&& start <= c < end_col
                    &&& c < start + width
                    &&& exists|r: int|
                        0 <= r < height && #[trigger] lit@[c - start]@[r] && (if r < old(self).rows as int { old(self).rows as int - 1 - r } else { 0 }) == idx / (
                        old(self).cols as int)
                },
            old(self).lit_only_under_roofs() && (forall|c: int|
                0 <= c < old(self).cols && Self::in_building(start as int, end_col as int, width as int, c)
                    ==> old(self).heights@[c] == 0) ==> final(self).lit_only_under_roofs(),
    {
        let ghost old_self = *self;
        let cols = self.cols;
        let rows = self.rows;
        if start >= end_col {
            return;
        }
        let span: usize = if width < end_col - start { width } else { end_col - start };
        let mut i: usize = 0;
        while i < span
            invariant
                old_self.wf(),
                self.wf(),
                self.cols == cols,
                self.rows == rows,
                old_self.cols == cols,
                old_self.rows == rows,
                rows > 0,
                start < end_col <= cols,
                span <= width,
                span <= end_col - start,
                i <= span,
                span <= lit@.len(),
                forall|k: int|
                    0 <= k < width && start + k < end_col ==> #[trigger] lit@[k]@.len() == height,
                forall|c: int|
                    0 <= c < cols ==> #[trigger] self.heights@[c] == if Self::in_building(
                        start as int,
                        end_col as int,
                        i as int,
                        c,
                    ) {
                        height
                    } else {
                        old_self.heights@[c]
                    },
                forall|idx: int|
                    0 <= idx < self.windows@.len() ==> #[trigger] self.windows@[idx] == (
                    old_self.windows@[idx] || old_self.lights(
                        start as int,
                        end_col as int,
                        i as int,
                        height as int,
                        lit@,
                        idx,
                    )),
            decreases span - i,
        {
            let col = start + i;
            let ghost before = self.windows@;
            store(&mut self.heights, col, height);
            let lit_col = &lit[i];
            let ghost heights_now = self.heights@;
            let wlen = self.windows.len();
            let mut r: usize = 0;
            while r < height
                invariant
                    old_self.wf(),
                    self.wf(),
                    self.cols == cols,
                    self.rows == rows,
                    old_self.cols == cols,
                    old_self.rows == rows,
                    rows > 0,
                    start < end_col <= cols,
                    i < span,
                    span <= width,
                    span <= end_col - start,
                    col == start + i,
                    *lit_col == lit@[i as int],
                    lit_col@.len() == height,
                    r <= height,
                    self.heights@ == heights_now,
                    wlen == self.windows@.len(),
                    before.len() == self.windows@.len(),
                    forall|idx: int|
                        0 <= idx < self.windows@.len() ==> #[trigger] self.windows@[idx] == (
                        before[idx] || (col_of(cols as int, idx) == col && lit_below(
                            lit_col@,
                            rows as int,
                            row_of(cols as int, idx),
                            r as int,
                        ))),
                decreases height - r,
            {
                let gy = mirror(rows, r);
                if lit_col[r] {
                    let idx = cell_at(cols, rows, col, gy, wlen);
                    store(&mut self.windows, idx, true);
                    proof {
                        assert forall|j: int| 0 <= j < self.windows@.len() implies #[trigger] self.windows@[j] == (
                            before[j] || (col_of(cols as int, j) == col && lit_below(
                                lit_col@,
                                rows as int,
                                row_of(cols as int, j),
                                r + 1,
                            ))) by {
                            lemma_lit_below_step(lit_col@, rows as int, row_of(cols as int, j), r as int);
                            if j != idx && col_of(cols as int, j) == col && row_of(cols as int, j) == gy {
                                lemma_index_unique(cols as int, rows as int, j, idx as int);
                            }
                        }
                    }
                } else {
                    proof {
                        assert forall|j: int| 0 <= j < self.windows@.len() implies #[trigger] self.windows@[j] == (
                            before[j] || (col_of(cols as int, j) == col && lit_below(
                                lit_col@,
                                rows as int,
                                row_of(cols as int, j),
                                r + 1,
                            ))) by {
                            lemma_lit_below_step(lit_col@, rows as int, row_of(cols as int, j), r as int);
                        }
                    }
                }
                r = r + 1;
            }
            proof {
                assert forall|idx: int| 0 <= idx < self.windows@.len() implies #[trigger] self.windows@[idx] == (
                    old_self.windows@[idx] || old_self.lights(
                        start as int,
                        end_col as int,
                        i + 1,
                        height as int,
                        lit@,
                        idx,
                    )) by {
                    assert(before[idx] == (old_self.windows@[idx] || old_self.lights(
                        start as int,
                        end_col as int,
                        i as int,
                        height as int,
                        lit@,
                        idx,
                    )));
                }
            }
            i = i + 1;
        }
        proof {
            assert forall|idx: int| 0 <= idx < self.windows@.len() implies old_self.lights(
                start as int,
                end_col as int,
                span as int,
                height as int,
                lit@,
                idx,
            ) == old_self.lights(
                start as int,
                end_col as int,
                width as int,
                height as int,
                lit@,
                idx,
            ) by {}
            assert forall|k: int, r: int|
                0 <= k < width && start + k < end_col && 0 <= r < height && #[trigger] lit@[k]@[r]
                    implies self.windows@[(if r < old_self.rows as int { old_self.rows as int - 1 - r } else { 0 }) * cols + start + k] by {
                let gy = (if r < old_self.rows as int { old_self.rows as int - 1 - r } else { 0 });
                crate::geometry::lemma_cell_index(cols as int, rows as int, start + k, gy);
                let idx = gy * cols + start + k;
                assert(lit@[k]@[r] && mirror_row(rows as int, r) == gy);
                assert(lit_below(lit@[k]@, rows as int, gy, height as int));
                assert(old_self.lights(start as int, end_col as int, width as int, height as int, lit@, idx));
            }
            assert forall|idx: int|
                0 <= idx < self.windows@.len() && #[trigger] self.windows@[idx]
                    && !old_self.windows@[idx] implies {
                    let c = idx % (cols as int);
                    &&& start <= c < end_col
                    &&& c < start + width
                    &&& exists|r: int|
                        0 <= r < height && #[trigger] lit@[c - start]@[r] && (if r < old_self.rows as int { old_self.rows as int - 1 - r } else { 0 }) == idx / (cols as int)
                } by {
                reveal(col_of);
                reveal(row_of);
                lemma_index_cell(cols as int, rows as int, idx);
                let c = idx % (cols as int);
                assert(old_self.lights(start as int, end_col as int, width as int, height as int, lit@, idx));
                let r = choose|r: int| 0 <= r < height && #[trigger] lit@[c - start]@[r] && mirror_row(rows as int, r) == idx / (cols as int);
                assert(0 <= r < height && lit@[c - start]@[r] && (if r < old_self.rows as int { old_self.rows as int - 1 - r } else { 0 }) == idx / (cols as int));
            }
            if old_self.lit_only_under_roofs() && (forall|c: int|
                0 <= c < old_self.cols && Self::in_building(start as int, end_col as int, width as int, c)
                    ==> old_self.heights@[c] == 0) {
                assert forall|i: int| 0 <= i < self.windows@.len() && #[trigger] self.windows@[i] implies self.under_roof(i) by {
                    lemma_index_cell(cols as int, rows as int, i);
                    let c = col_of(cols as int, i);
                    let gy = row_of(cols as int, i);
                    if old_self.lights(start as int, end_col as int, width as int, height as int, lit@, i) {
                        let r = choose|r: int| 0 <= r < height && #[trigger] lit@[c - start]@[r] && mirror_row(rows as int, r) == gy;
                        assert(mirror_row(rows as int, gy) <= r);
                    } else {
                        assert(old_self.windows@[i]);
                        assert(old_self.under_roof(i));
                    }
                }
            }
        }
    }

    /// The window at grid index `i` lies inside a building: its height above
    /// the bottom row is below the height of its column.
    pub open spec fn under_roof(&self, i: int) -> bool {
        &&& self.cols > 0
        &&& 0 <= i < self.windows@.len()
        &&& mirror_row(self.rows as int, row_of(self.cols as int, i)) < self.heights@[col_of(
            self.cols as int,
            i,
        )]
    }

    /// Whether the window at grid index `i` lies inside a building, so that
    /// it may twinkle.
    pub fn window_under_roof(&self, i: usize) -> (b: bool)
        requires
            self.wf(),
        ensures
            b == self.under_roof(i as int),
            b == (self.cols > 0 && (i as int) < self.windows@.len() && self.rows as int - 1 - (i as int) / (self.cols as int) < self.heights@[(i as int) % (self.cols as int)] as int),
    {
        if self.cols == 0 || i >= self.windows.len() {
            return false;
        }
        proof {
            reveal(col_of);
            reveal(row_of);
            lemma_index_cell(self.cols as int, self.rows as int, i as int);
        }
        let c = i % self.cols;
        let above = mirror(self.rows, i / self.cols);
        above < self.heights[c]
    }

    /// Every lit window lies inside a building.
    pub open spec fn lit_only_under_roofs(&self) -> bool {
        forall|i: int| 0 <= i < self.windows@.len() && #[trigger] self.windows@[i] ==> self.under_roof(i)
    }

    /// Flips the window at grid index `i` on or off, when it lies inside a
    /// building; windows outside buildings never change.
    pub fn toggle_window(&mut self, i: usize)
        requires
            old(self).wf(),
        ensures
            final(self).wf(),
            final(self).cols == old(self).cols,
            final(self).rows == old(self).rows,
            final(self).heights@ == old(self).heights@,
            final(self).windows@ == (if old(self).under_roof(i as int) {
                old(self).windows@.update(i as int, !old(self).windows@[i as int])
            } else {
                old(self).windows@
            }),
            final(self).windows@ == (if (old(self).cols > 0 && (i as int) < old(self).windows@.len() && old(self).rows as int - 1 - (i as int) / (old(self).cols as int) < old(self).heights@[(i as int) % (old(self).cols as int)] as int) {
                old(self).windows@.update(i as int, !old(self).windows@[i as int])
            } else {
                old(self).windows@
            }),
            old(self).lit_only_under_roofs() ==> final(self).lit_only_under_roofs(),
    {
        if self.window_under_roof(i) {
            let was = self.windows[i];
            store(&mut self.windows, i, !was);
        }
    }

    /// Turns the window at grid index `i` off, when it lies inside a
    /// building; windows outside buildings never change.
    pub fn darken_window(&mut self, i: usize)
        requires
            old(self).wf(),
        ensures
            final(self).wf(),
            final(self).cols == old(self).cols,
            final(self).rows == old(self).rows,
            final(self).heights@ == old(self).heights@,
            final(self).windows@ == (if old(self).under_roof(i as int) {
                old(self).windows@.update(i as int, false)
            } else {
                old(self).windows@
            }),
            final(self).windows@ == (if (old(self).cols > 0 && (i as int) < old(self).windows@.len() && old(self).rows as int - 1 - (i as int) / (old(self).cols as int) < old(self).heights@[(i as int) % (old(self).cols as int)] as int) {
                old(self).windows@.update(i as int, false)
            } else {
                old(self).windows@
            }),
            old(self).lit_only_under_roofs() ==> final(self).lit_only_under_roofs(),
    {
        if self.window_under_roof(i) {
            store(&mut self.windows, i, false);
        }
    }

    /// An empty skyline over an empty grid.
    pub fn empty() -> (s: Skyline)
        ensures
            s.wf(),
            s.cols == 0,
            s.rows == 0,
            s.lit_only_under_roofs(),
    {
        Skyline { cols: 0, rows: 0, heights: Vec::new(), windows: Vec::new() }
    }

    /// A skyline with no buildings and no lit windows over a `cols` by
    /// `rows` grid.
    pub fn flat(cols: usize, rows: usize) -> (s: Skyline)
        requires
            cols * rows <= usize::MAX,
        ensures
            s.wf(),
            s.cols == cols,
            s.rows == rows,
            forall|c: int| 0 <= c < cols ==> s.heights@[c] == 0,
            forall|i: int| 0 <= i < cols * rows ==> !s.windows@[i],
            s.lit_only_under_roofs(),
    {
        let mut heights: Vec<usize> = Vec::new();
        let mut c: usize = 0;
        while c < cols
            invariant
                c <= cols,
                heights@.len() == c,
                forall|j: int| 0 <= j < c ==> heights@[j] == 0,
            decreases cols - c,
        {
            heights.push(0);
            c = c + 1;
        }
        let n: usize = cols * rows;
        let mut windows: Vec<bool> = Vec::new();
        let mut i: usize = 0;
        while i < n
            invariant
                i <= n,
                windows@.len() == i,
                forall|j: int| 0 <= j < i ==> !windows@[j],
            decreases n - i,
        {
            windows.push(false);
            i = i + 1;
        }
        Skyline { cols, rows, heights, windows }
    }
}

} // verus!

verus! {

/// The background of every building cell.
pub open spec fn building_bg() -> Rgb {
    (15u8, 15u8, 22u8)
}

/// The last level below `h` of a building column that lands in row `gy` of
/// a grid `rows` tall, if any. Level `r` lands `r` rows up from the bottom
/// row, so row `gy` above the bottom row holds level `rows - 1 - gy`; the
/// top row also takes every level that would rise above the grid, the last
/// of them being `h - 1`.
pub open spec fn painted_level(rows: int, gy: int, h: int) -> Option<int> {
    if gy > 0 {
        if mirror_row(rows, gy) < h {
            Some(mirror_row(rows, gy))
        } else {
            None
        }
    } else if mirror_row(rows, 0) < h {
        Some(h - 1)
    } else {
        None
    }
}

/// Whether the window at grid index `idx` is lit (no flag means unlit).
pub open spec fn window_lit(windows: Seq<bool>, idx: int) -> bool {
    0 <= idx < windows.len() && windows[idx]
}

/// The building level drawn into grid index `idx` of a `cols` by `rows`
/// grid, if any.
pub open spec fn skyline_level(sky: Skyline, cols: int, rows: int, idx: int) -> Option<int> {
    if cols > 0 && 0 <= idx < cols * rows && col_of(cols, idx) < sky.heights@.len() {
        painted_level(rows, row_of(cols, idx), sky.heights@[col_of(cols, idx)] as int)
    } else {
        None
    }
}

/// The cell shows building level `level` of column `c`, row `gy`, as
/// `paint` draws it for that window's lit state, on the building background.
pub open spec fn building_cell<F: Fn(usize, usize, usize, bool) -> (char, Rgb, bool)>(
    cell: TerminalCell,
    paint: F,
    c: int,
    gy: int,
    level: int,
    lit: bool,
) -> bool {
    &&& cell.bg == building_bg()
    &&& paint.ensures((c as usize, gy as usize, level as usize, lit), (cell.ch, cell.fg, cell.bold))
}

/// Draws the city skyline onto a `cols` by `rows` grid. Each column `c`
/// (up to `cols`) is filled from the bottom row up to its building height;
/// levels that would rise above the grid all land in the top row, the last
/// one staying. Each building cell takes the glyph, colour and boldness that
/// `paint` gives for its column, row, level and whether its window is lit,
/// on the building background. Every other cell is left as it was.
pub fn draw_skyline<F: Fn(usize, usize, usize, bool) -> (char, Rgb, bool)>(
    sky: &Skyline,
    paint: &F,
    grid: &mut Vec<TerminalCell>,
    cols: usize,
    rows: usize,
)
    requires
        cols * rows <= old(grid)@.len(),
        rows > 0 || forall|c: int| 0 <= c < sky.heights@.len() && c < cols ==> sky.heights@[c] == 0,
        forall|c: usize, gy: usize, level: usize, lit: bool| paint.requires((c, gy, level, lit)),
    ensures
        final(grid)@.len() == old(grid)@.len(),
        forall|i: int|
            0 <= i < final(grid)@.len() ==> match #[trigger] skyline_level(*sky, cols as int, rows as int, i) {
                Some(level) => building_cell(
                    final(grid)@[i],
                    *paint,
                    col_of(cols as int, i),
                    row_of(cols as int, i),
                    level,
                    window_lit(sky.windows@, i),
                ),
                None => final(grid)@[i] == old(grid)@[i],
            },
        // stated on the grid itself: the cell in column `c` and row `gy`
        // (`i == gy * cols + c`) is a building cell exactly when its height
        // above the bottom row, `rows - 1 - gy`, is below the building height
        // of its column; below the top row it shows level `rows - 1 - gy`,
        // and in the top row the last level of the building
        forall|i: int|
            0 <= i < cols * rows && i % (cols as int) < sky.heights@.len() && i / (cols as int) > 0 && rows - 1 - i / (cols as int)
                < sky.heights@[i % (cols as int)] ==> {
                &&& (#[trigger] final(grid)@[i]).bg == (15u8, 15u8, 22u8)
                &&& paint.ensures(
                    (
                        (i % (cols as int)) as usize,
                        (i / (cols as int)) as usize,
                        (rows - 1 - i / (cols as int)) as usize,
                        i < sky.windows@.len() && sky.windows@[i],
                    ),
                    (final(grid)@[i].ch, final(grid)@[i].fg, final(grid)@[i].bold),
                )
            },
        forall|c: int|
            0 <= c < cols && c < sky.heights@.len() && rows > 0 && rows - 1 < #[trigger] sky.heights@[c]
                ==> {
                &&& final(grid)@[c].bg == (15u8, 15u8, 22u8)
                &&& paint.ensures(
                    (
                        c as usize,
                        0usize,
                        (sky.heights@[c] - 1) as usize,
                        c < sky.windows@.len() && sky.windows@[c],
                    ),
                    (final(grid)@[c].ch, final(grid)@[c].fg, final(grid)@[c].bold),
                )
            },
        forall|i: int|
            0 <= i < final(grid)@.len() && !(i < cols * rows && i % (cols as int) < sky.heights@.len() && rows - 1
                - i / (cols as int) < sky.heights@[i % (cols as int)]) ==> #[trigger] final(grid)@[i] == old(grid)@[i],
{
    let ghost old_grid = grid@;
    let glen = grid.len();
    let wlen = sky.windows.len();
    let ncols: usize = if cols < sky.heights.len() { cols } else { sky.heights.len() };
    proof {
        assert forall|i: int| 0 <= i < grid@.len() && cols > 0 && i < cols * rows implies col_of(cols as int, i) >= 0 by {
            lemma_index_cell(cols as int, rows as int, i);
        }
    }
    let mut c: usize = 0;
    while c < ncols
        invariant
            ncols <= cols,
            ncols <= sky.heights@.len(),
            c <= ncols,
            cols * rows <= grid@.len(),
            glen == grid@.len(),
            wlen == sky.windows@.len(),
            old_grid.len() == grid@.len(),
            rows > 0 || forall|k: int| 0 <= k < sky.heights@.len() && k < cols ==> sky.heights@[k] == 0,
            forall|a: usize, b: usize, d: usize, e: bool| paint.requires((a, b, d, e)),
            forall|i: int|
                0 <= i < grid@.len() ==> match #[trigger] skyline_level(*sky, cols as int, rows as int, i) {
                    Some(level) => if col_of(cols as int, i) < c {
                        building_cell(
                            grid@[i],
                            *paint,
                            col_of(cols as int, i),
                            row_of(cols as int, i),
                            level,
                            window_lit(sky.windows@, i),
                        )
                    } else {
                        grid@[i] == old_grid[i]
                    },
                    None => grid@[i] == old_grid[i],
                },
        decreases ncols - c,
    {
        let h = sky.heights[c];
        let ghost before = grid@;
        let mut r: usize = 0;
        while r < h
            invariant
                ncols <= cols,
                ncols <= sky.heights@.len(),
                c < ncols,
                h == sky.heights@[c as int],
                r <= h,
                h > 0 ==> rows > 0,
                cols * rows <= grid@.len(),
                glen == grid@.len(),
                wlen == sky.windows@.len(),
                before.len() == grid@.len(),
                forall|a: usize, b: usize, d: usize, e: bool| paint.requires((a, b, d, e)),
                forall|i: int|
                    0 <= i < grid@.len() && !(cols > 0 && i < cols * rows && col_of(cols as int, i) == c
                        && painted_level(rows as int, row_of(cols as int, i), r as int) is Some)
                        ==> #[trigger] grid@[i] == before[i],
                forall|i: int|
                    0 <= i < grid@.len() && cols > 0 && i < cols * rows && col_of(cols as int, i) == c
                        ==> match #[trigger] painted_level(rows as int, row_of(cols as int, i), r as int) {
                        Some(level) => building_cell(
                            grid@[i],
                            *paint,
                            c as int,
                            row_of(cols as int, i),
                            level,
                            window_lit(sky.windows@, i),
                        ),
                        None => true,
                    },
            decreases h - r,
        {
            let gy = mirror(rows, r);
            let idx = cell_at(cols, rows, c, gy, glen);
            let lit = if idx < wlen { sky.windows[idx] } else { false };
            let (ch, fg, bold) = paint(c, gy, r, lit);
            store(grid, idx, TerminalCell { ch, fg, bg: (15, 15, 22), bold });
            proof {
                assert forall|i: int|
                    0 <= i < grid@.len() && cols > 0 && i < cols * rows && col_of(cols as int, i) == c
                        implies match #[trigger] painted_level(rows as int, row_of(cols as int, i), r + 1) {
                        Some(level) => building_cell(
                            grid@[i],
                            *paint,
                            c as int,
                            row_of(cols as int, i),
                            level,
                            window_lit(sky.windows@, i),
                        ),
                        None => true,
                    } by {
                    if i != idx && row_of(cols as int, i) == gy {
                        lemma_index_unique(cols as int, rows as int, i, idx as int);
                    }
                    if i != idx {
                        lemma_index_cell(cols as int, rows as int, i);
                    }
                }
                assert forall|i: int|
                    0 <= i < grid@.len() && !(cols > 0 && i < cols * rows && col_of(cols as int, i) == c
                        && painted_level(rows as int, row_of(cols as int, i), r + 1) is Some)
                        implies #[trigger] grid@[i] == before[i] by {
                    if i != idx && cols > 0 && i < cols * rows && col_of(cols as int, i) == c && row_of(cols as int, i) == gy {
                        lemma_index_unique(cols as int, rows as int, i, idx as int);
                    }
                    if cols > 0 && i < cols * rows {
                        lemma_index_cell(cols as int, rows as int, i);
                    }
                }
            }
            r = r + 1;
        }
        proof {
            assert forall|i: int|
                0 <= i < grid@.len() implies match #[trigger] skyline_level(*sky, cols as int, rows as int, i) {
                    Some(level) => if col_of(cols as int, i) < c + 1 {
                        building_cell(
                            grid@[i],
                            *paint,
                            col_of(cols as int, i),
                            row_of(cols as int, i),
                            level,
                            window_lit(sky.windows@, i),
                        )
                    } else {
                        grid@[i] == old_grid[i]
                    },
                    None => grid@[i] == old_grid[i],
                } by {
                if cols > 0 && i < cols * rows {
                    lemma_index_cell(cols as int, rows as int, i);
                }
            }
        }
        c = c + 1;
    }
    proof {
        assert forall|i: int|
            0 <= i < grid@.len() implies match #[trigger] skyline_level(*sky, cols as int, rows as int, i) {
                Some(level) => building_cell(
                    grid@[i],
                    *paint,
                    col_of(cols as int, i),
                    row_of(cols as int, i),
                    level,
                    window_lit(sky.windows@, i),
                ),
                None => grid@[i] == old_grid[i],
            } by {
            if cols > 0 && i < cols * rows {
                lemma_index_cell(cols as int, rows as int, i);
            }
        }
    }
    proof {
        reveal(col_of);
        reveal(row_of);
        assert forall|i: int|
            0 <= i < cols * rows && i % (cols as int) < sky.heights@.len() && i / (cols as int) > 0 && rows - 1 - i / (cols as int)
                < sky.heights@[i % (cols as int)] implies {
                &&& (#[trigger] grid@[i]).bg == (15u8, 15u8, 22u8)
                &&& paint.ensures(
                    (
                        (i % (cols as int)) as usize,
                        (i / (cols as int)) as usize,
                        (rows - 1 - i / (cols as int)) as usize,
                        i < sky.windows@.len() && sky.windows@[i],
                    ),
                    (grid@[i].ch, grid@[i].fg, grid@[i].bold),
                )
            } by {
            lemma_index_cell(cols as int, rows as int, i);
            assert(skyline_level(*sky, cols as int, rows as int, i) == Some(rows - 1 - i / (cols as int)));
        }
        assert forall|c: int|
            0 <= c < cols && c < sky.heights@.len() && rows > 0 && rows - 1 < #[trigger] sky.heights@[c]
                implies {
                &&& grid@[c].bg == (15u8, 15u8, 22u8)
                &&& paint.ensures(
                    (
                        c as usize,
                        0usize,
                        (sky.heights@[c] - 1) as usize,
                        c < sky.windows@.len() && sky.windows@[c],
                    ),
                    (grid@[c].ch, grid@[c].fg, grid@[c].bold),
                )
            } by {
            crate::geometry::lemma_cell_index(cols as int, rows as int, c, 0);
            assert(skyline_level(*sky, cols as int, rows as int, c) == Some(sky.heights@[c] - 1));
        }
        assert forall|i: int|
            0 <= i < grid@.len() && !(i < cols * rows && i % (cols as int) < sky.heights@.len() && rows - 1
                - i / (cols as int) < sky.heights@[i % (cols as int)]) implies #[trigger] grid@[i] == old_grid[i] by {
            if 0 <= i < cols * rows {
                lemma_index_cell(cols as int, rows as int, i);
            }
            assert(skyline_level(*sky, cols as int, rows as int, i) is None);
        }
    }
}

} // verus!

verus! {

/// The windows that may twinkle are exactly the cells that drawing the
/// skyline on its own grid paints as building: a window lies inside a
/// building if and only if a building level is drawn at its index.
pub proof fn law_twinkling_windows_are_drawn(sky: Skyline, i: int)
    requires
        sky.wf(),
        0 <= i < sky.windows@.len(),
    ensures
        sky.under_roof(i) <==> skyline_level(sky, sky.cols as int, sky.rows as int, i) is Some,
{
    if sky.cols > 0 {
        lemma_index_cell(sky.cols as int, sky.rows as int, i);
    }
}

} // verus!
