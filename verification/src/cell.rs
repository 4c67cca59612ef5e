use vstd::prelude::*;

verus! {

/// An RGB colour, one byte per channel.
pub type Rgb = (u8, u8, u8);

/// One character cell of the terminal grid.
#[derive(Clone, Copy, Debug, PartialEq, Eq)]
pub struct TerminalCell {
    pub ch: char,
    pub fg: Rgb,
    pub bg: Rgb,
    pub bold: bool,
}

/// The cell that a cleared grid holds: a space, black on black, not bold.
pub open spec fn blank_cell() -> TerminalCell {
    TerminalCell { ch: ' ', fg: (0, 0, 0), bg: (0, 0, 0), bold: false }
}

impl TerminalCell {
    /// A space, black on black, not bold.
    pub fn blank() -> (c: TerminalCell)
        ensures
            c == blank_cell(),
            c.ch == ' ' && c.fg == (0u8, 0u8, 0u8) && c.bg == (0u8, 0u8, 0u8) && !c.bold,
    {
        TerminalCell { ch: ' ', fg: (0, 0, 0), bg: (0, 0, 0), bold: false }
    }
}

/// Writes `value` into slot `i` of the vector; every other slot keeps its
/// value.
pub fn store<T>(v: &mut Vec<T>, i: usize, value: T)
    requires
        i < old(v)@.len(),
    ensures
        final(v)@ == old(v)@.update(i as int, value),
        final(v)@.len() == old(v)@.len(),
        final(v)@[i as int] == value,
        forall|j: int| 0 <= j < final(v)@.len() && j != i ==> final(v)@[j] == old(v)@[j],
{
    let ghost before = v@;
    v.set(i, value);
    assert(v@ =~= before.update(i as int, value));
}

/// Resets every cell of the grid to a blank cell, so that nothing of the
/// previous frame lingers.
pub fn clear_grid(grid: &mut Vec<TerminalCell>)
    ensures
        final(grid)@.len() == old(grid)@.len(),
        forall|i: int| 0 <= i < final(grid)@.len() ==> final(grid)@[i] == blank_cell(),
        forall|i: int|
            0 <= i < final(grid)@.len() ==> (#[trigger] final(grid)@[i]).ch == ' ' && final(grid)@[i].fg == (
            0u8,
            0u8,
            0u8,
        ) && final(grid)@[i].bg == (0u8, 0u8, 0u8) && !final(grid)@[i].bold,
{
    let n = grid.len();
    let mut i: usize = 0;
    while i < n
        invariant
            n == grid@.len(),
            i <= n,
            forall|j: int| 0 <= j < i ==> grid@[j] == blank_cell(),
        decreases n - i,
    {
        store(grid, i, TerminalCell::blank());
        i = i + 1;
    }
}

} // verus!
