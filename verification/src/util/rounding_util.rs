//! Which corners of a piece of a rounded rectangle stay rounded.

use vstd::prelude::*;

verus! {

/// One mark for each corner of a rectangle: 1 where the corner is rounded,
/// 0 where it is square. The marks scale a radius.
#[derive(Copy, Clone, Debug, PartialEq, Eq)]
pub struct RoundingLegend {
    pub nw: i32,
    pub sw: i32,
    pub ne: i32,
    pub se: i32,
}

/// The mark of a corner that is rounded if `rounded` holds.
pub open spec fn mark(rounded: bool) -> i32 {
    if rounded {
        1
    } else {
        0
    }
}

/// Computes [`mark`].
fn mark_of(rounded: bool) -> (m: i32)
    ensures
        m == mark(rounded),
{
    if rounded {
        1
    } else {
        0
    }
}

impl RoundingLegend {
    /// The legend with the given marks.
    pub fn new(nw: i32, sw: i32, ne: i32, se: i32) -> (legend: RoundingLegend)
        ensures
            legend == (RoundingLegend { nw, sw, ne, se }),
    {
        RoundingLegend { nw, sw, ne, se }
    }

    /// The legend of the cell in row `r` and column `c` of a rounded
    /// rectangle split into `rows` by `cols` cells: a corner of the cell
    /// stays rounded where it is a corner of the whole.
    pub open spec fn of_cell(r: usize, c: usize, rows: usize, cols: usize) -> RoundingLegend {
        RoundingLegend {
            nw: mark(r == 0 && c == 0),
            sw: mark(r + 1 == rows && c == 0),
            ne: mark(r == 0 && c + 1 == cols),
            se: mark(r + 1 == rows && c + 1 == cols),
        }
    }

    /// The legend of shade `i` of a strip of `len` shades: the first shade
    /// keeps the two corners on the left, the last one the two on the right,
    /// the others none. A strip of one shade keeps the left ones only.
    pub open spec fn of_shade(i: usize, len: usize) -> RoundingLegend {
        if i == 0 {
            RoundingLegend { nw: 1, sw: 1, ne: 0, se: 0 }
        } else if i + 1 == len {
            RoundingLegend { nw: 0, sw: 0, ne: 1, se: 1 }
        } else {
            RoundingLegend { nw: 0, sw: 0, ne: 0, se: 0 }
        }
    }
}

impl Default for RoundingLegend {
    fn default() -> (legend: RoundingLegend)
        ensures
            legend == (RoundingLegend { nw: 0, sw: 0, ne: 0, se: 0 }),
    {
        RoundingLegend { nw: 0, sw: 0, ne: 0, se: 0 }
    }
}

/// Computes [`RoundingLegend::of_cell`] for a cell of the grid.
pub fn cell_legend(r: usize, c: usize, rows: usize, cols: usize) -> (legend: RoundingLegend)
    requires
        r < rows,
        c < cols,
    ensures
        legend == RoundingLegend::of_cell(r, c, rows, cols),
{
    let top: bool = r == 0;
    let bottom: bool = r + 1 == rows;
    let left: bool = c == 0;
    let right: bool = c + 1 == cols;
    RoundingLegend {
        nw: mark_of(top && left),
        sw: mark_of(bottom && left),
        ne: mark_of(top && right),
        se: mark_of(bottom && right),
    }
}

/// Computes [`RoundingLegend::of_shade`] for a shade of the strip.
pub fn shade_legend(i: usize, len: usize) -> (legend: RoundingLegend)
    requires
        i < len,
    ensures
        legend == RoundingLegend::of_shade(i, len),
{
    if i == 0 {
        RoundingLegend { nw: 1, sw: 1, ne: 0, se: 0 }
    } else if i + 1 == len {
        RoundingLegend { nw: 0, sw: 0, ne: 1, se: 1 }
    } else {
        RoundingLegend { nw: 0, sw: 0, ne: 0, se: 0 }
    }
}

/// Which of `colors` colours tile number `index` of a square of `side` by
/// `side` tiles gets, so that neighbours in a row and in a column differ:
/// the colours go round along a row and start one later in each new row.
pub open spec fn tile_color_of(index: usize, side: usize, colors: usize) -> int {
    (index + index / side) % (colors as int)
}

/// Computes [`tile_color_of`].
pub fn tile_color(index: usize, side: usize, colors: usize) -> (color: usize)
    requires
        side > 0,
        colors > 0,
    ensures
        color == tile_color_of(index, side, colors),
        color < colors,
{
    let shifted: u128 = index as u128 + (index / side) as u128;
    (shifted % colors as u128) as usize
}

} // verus!
