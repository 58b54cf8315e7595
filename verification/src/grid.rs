//! Grids of levels: the stored rows, their mathematical view, and how to make,
//! copy and reshape them.

use vstd::prelude::*;

verus! {

/// The level that stands for the intensity 1.0. A cell holds a level between
/// 0 and `FULL`; the level `v` stands for the intensity `v / FULL`.
pub const FULL: u32 = 0x100_0000;

/// The rows of a stored grid, each as the sequence of its levels.
pub open spec fn levels(cells: &Vec<Vec<u32>>) -> Seq<Seq<u32>> {
    Seq::new(cells@.len(), |r: int| cells@[r]@)
}

/// Every row of `g` has `width` cells, no cell holds more than `FULL`, and
/// both dimensions can be held in a `usize`.
pub open spec fn is_grid(g: Seq<Seq<u32>>, width: nat) -> bool {
    &&& g.len() <= usize::MAX
    &&& width <= usize::MAX
    &&& forall|r: int| 0 <= r < g.len() ==> (#[trigger] g[r]).len() == width
    &&& forall|r: int, c: int| 0 <= r < g.len() && 0 <= c < width ==> #[trigger] g[r][c] <= FULL
}

/// The grid of `height` rows and `width` columns that holds zero everywhere.
pub open spec fn blank(width: nat, height: nat) -> Seq<Seq<u32>> {
    Seq::new(height, |r: int| Seq::new(width, |c: int| 0u32))
}

/// What `g` becomes when it is cut or grown to `height` rows of `width` cells:
/// a cell that `g` has keeps its level, a new cell holds zero.
pub open spec fn reshaped(g: Seq<Seq<u32>>, width: nat, height: nat) -> Seq<Seq<u32>> {
    Seq::new(
        height,
        |r: int|
            Seq::new(
                width,
                |c: int|
                    if r < g.len() && c < g[r].len() {
                        g[r][c]
                    } else {
                        0u32
                    },
            ),
    )
}

/// A row of `width` zeros.
pub fn blank_row(width: usize) -> (row: Vec<u32>)
    ensures
        row@ == Seq::new(width as nat, |c: int| 0u32),
{
    let mut row: Vec<u32> = Vec::new();
    let mut col: usize = 0;
    while col < width
        invariant
            col <= width,
            row@ == Seq::new(col as nat, |c: int| 0u32),
        decreases width - col,
    {
        row.push(0);
        col += 1;
    }
    row
}

/// A grid of `height` rows of `width` zeros.
pub fn blank_grid(width: usize, height: usize) -> (cells: Vec<Vec<u32>>)
    ensures
        levels(&cells) == blank(width as nat, height as nat),
        is_grid(levels(&cells), width as nat),
{
    let mut cells: Vec<Vec<u32>> = Vec::new();
    let mut r: usize = 0;
    while r < height
        invariant
            r <= height,
            cells@.len() == r,
            forall|i: int| 0 <= i < r ==> (#[trigger] cells@[i])@ == Seq::new(width as nat, |c: int| 0u32),
        decreases height - r,
    {
        let row = blank_row(width);
        cells.push(row);
        r += 1;
    }
    assert(levels(&cells) =~~= blank(width as nat, height as nat));
    cells
}

/// A copy of `cells`, row by row.
pub fn copy_grid(cells: &Vec<Vec<u32>>) -> (copy: Vec<Vec<u32>>)
    ensures
        levels(&copy) == levels(cells),
{
    let mut copy: Vec<Vec<u32>> = Vec::new();
    let mut r: usize = 0;
    while r < cells.len()
        invariant
            r <= cells.len(),
            copy@.len() == r,
            forall|i: int| 0 <= i < r ==> (#[trigger] copy@[i])@ == cells@[i]@,
        decreases cells.len() - r,
    {
        let row = cells[r].clone();
        copy.push(row);
        r += 1;
    }
    assert(levels(&copy) =~~= levels(cells));
    copy
}

} // verus!
