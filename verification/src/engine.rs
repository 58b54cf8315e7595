//! The engine: a grid, the rule it runs, and the set of active cells.

use vstd::prelude::*;
use ahash::AHashSet;
use crate::active::{cells_of, empty_set, held, holds_nothing, insert_cell};
use crate::grid::{blank, blank_grid, copy_grid, is_grid, levels, reshaped, FULL};
use crate::life::{
    after, all_cells, before, block_around, changed_cells, changes, frame_after, full_step,
    in_grid, lemma_blank_is_still, lemma_frame_grows, lemma_marks_bounded, lemma_marks_grow,
    lemma_sound_step, lemma_step_keeps_grid, marks_after, next_cell_state, next_state, scanned,
    step_active, step_cells, tracking_sound,
};
use crate::kernel::{changes_of, fits, grown, next_level};
use crate::random::{random_level, seeded};

verus! {

/// The rule an engine runs. It is chosen when the engine is made and stays.
#[derive(Clone, Copy, Debug, PartialEq, Eq, Structural)]
pub enum Mode {
    /// The continuous rule: intensities anywhere between zero and one.
    Lenia,
    /// The discrete rule: Conway's Life.
    GameOfLife,
}

/// The radius of the kernel when none is asked for.
pub const DEFAULT_KERNEL_RADIUS: usize = 13;

/// A resize was refused because the memory for the new grid could not be had.
#[derive(Clone, Copy, Debug, PartialEq, Eq)]
pub struct ResourceExhausted;

/// Whether (`row`, `col`) lies in `area`, which gives the first and last
/// column and then the first and last row, all four included.
pub open spec fn in_area(area: ((usize, usize), (usize, usize)), row: int, col: int) -> bool {
    area.1.0 <= row <= area.1.1 && area.0.0 <= col <= area.0.1
}

/// A grid of intensities on a torus, stepped by one of two rules.
pub struct Lenia {
    cells: Vec<Vec<u32>>,
    width: usize,
    active_cells: AHashSet<(usize, usize)>,
    mode: Mode,
    kernel_radius: usize,
}

/// What an engine is, mathematically.
pub struct LeniaView {
    /// The rows of the grid, top to bottom, each a sequence of levels.
    pub cells: Seq<Seq<u32>>,
    /// The number of columns.
    pub width: nat,
    /// The active cells, each as (row, column).
    pub active: Set<(usize, usize)>,
    /// The rule.
    pub mode: Mode,
    /// How far, in cells, a cell listens under the continuous rule.
    pub kernel_radius: nat,
}

impl View for Lenia {
    type V = LeniaView;

    closed spec fn view(&self) -> LeniaView {
        LeniaView {
            cells: levels(&self.cells),
            width: self.width as nat,
            active: held(self.active_cells),
            mode: self.mode,
            kernel_radius: self.kernel_radius as nat,
        }
    }
}

/// Evaluates one cell of the frame `cells`: writes its next level into `next`
/// and, if the level changed, adds the cell and its eight neighbours to `marks`.
fn update_cell(
    cells: &Vec<Vec<u32>>,
    width: usize,
    row: usize,
    col: usize,
    next: &mut Vec<Vec<u32>>,
    marks: &mut AHashSet<(usize, usize)>,
)
    requires
        is_grid(levels(cells), width as nat),
        row < cells.len(),
        col < width,
        levels(old(next)).len() == cells.len(),
        levels(old(next))[row as int].len() == width,
    ensures
        levels(final(next)) == levels(old(next)).update(
            row as int,
            levels(old(next))[row as int].update(
                col as int,
                next_state(levels(cells), row as int, col as int),
            ),
        ),
        held(*final(marks)) == if changes(levels(cells), (row, col)) {
            held(*old(marks)).union(block_around((row, col), cells.len() as int, width as int))
        } else {
            held(*old(marks))
        },
{
    let h = cells.len();
    assert(levels(cells)[row as int].len() == width);
    let (level, changed) = next_cell_state(cells, row, col);
    next[row][col] = level;
    if changed {
        let top = before(row, h);
        let bottom = after(row, h);
        let left = before(col, width);
        let right = after(col, width);
        insert_cell(marks, (row, col));
        insert_cell(marks, (top, left));
        insert_cell(marks, (top, col));
        insert_cell(marks, (top, right));
        insert_cell(marks, (row, left));
        insert_cell(marks, (row, right));
        insert_cell(marks, (bottom, left));
        insert_cell(marks, (bottom, col));
        insert_cell(marks, (bottom, right));
        assert(held(*marks) =~= held(*old(marks)).union(
            block_around((row, col), h as int, width as int),
        ));
    }
}

/// Gives every cell of `cells` that lies in `area` a fresh random level for
/// `mode`, and leaves the others alone. The last column and row of the area
/// are cut to the grid; the first ones are taken as they are.
fn seed_cells(
    cells: &mut Vec<Vec<u32>>,
    width: usize,
    area: ((usize, usize), (usize, usize)),
    mode: Mode,
)
    requires
        is_grid(levels(old(cells)), width as nat),
    ensures
        is_grid(levels(final(cells)), width as nat),
        levels(final(cells)).len() == levels(old(cells)).len(),
        forall|r: int, c: int|
            0 <= r < levels(old(cells)).len() && 0 <= c < width ==> if in_area(area, r, c) {
                seeded(mode, #[trigger] levels(final(cells))[r][c])
            } else {
                levels(final(cells))[r][c] == levels(old(cells))[r][c]
            },
{
    let h = cells.len();
    let row_end = if area.1.1 >= h {
        h
    } else {
        area.1.1 + 1
    };
    let col_end = if area.0.1 >= width {
        width
    } else {
        area.0.1 + 1
    };
    let ghost before = levels(cells);
    let mut row = area.1.0;
    while row < row_end
        invariant
            area.1.0 <= row,
            row_end <= h,
            row_end == if area.1.1 >= h { h } else { (area.1.1 + 1) as usize },
            col_end <= width,
            col_end == if area.0.1 >= width { width } else { (area.0.1 + 1) as usize },
            h == cells.len(),
            before.len() == h,
            is_grid(before, width as nat),
            is_grid(levels(cells), width as nat),
            forall|r: int, c: int|
                0 <= r < h && 0 <= c < width ==> if r < row && in_area(area, r, c) {
                    seeded(mode, #[trigger] levels(cells)[r][c])
                } else {
                    levels(cells)[r][c] == before[r][c]
                },
        decreases row_end - row,
    {
        let mut col = area.0.0;
        while col < col_end
            invariant
                area.0.0 <= col,
                area.1.0 <= row < row_end,
                row_end <= h,
                row_end == if area.1.1 >= h { h } else { (area.1.1 + 1) as usize },
                col_end <= width,
                col_end == if area.0.1 >= width { width } else { (area.0.1 + 1) as usize },
                h == cells.len(),
                before.len() == h,
                is_grid(before, width as nat),
                is_grid(levels(cells), width as nat),
                forall|r: int, c: int|
                    0 <= r < h && 0 <= c < width ==> if (r < row || (r == row && c < col))
                        && in_area(area, r, c) {
                        seeded(mode, #[trigger] levels(cells)[r][c])
                    } else {
                        levels(cells)[r][c] == before[r][c]
                    },
            decreases col_end - col,
        {
            let level = random_level(mode);
            let ghost prior = levels(cells);
            assert(prior[row as int].len() == width);
            cells[row][col] = level;
            proof {
                let now = levels(cells);
                assert(now =~~= prior.update(row as int, prior[row as int].update(col as int, level)));
                assert forall|r: int, c: int| 0 <= r < now.len() && 0 <= c < width implies #[trigger] now[r][c] <= FULL by {
                    if r == row && c == col {
                    } else {
                        assert(now[r][c] == prior[r][c]);
                    }
                }
            }
            col += 1;
        }
        row += 1;
    }
}

impl Lenia {
    /// The engine holds a grid, and every active cell lies on it.
    pub open spec fn wf(&self) -> bool {
        &&& is_grid(self@.cells, self@.width)
        &&& forall|cell: (usize, usize)| #[trigger]
            self@.active.contains(cell) ==> in_grid(self@.cells, self@.width, cell)
    }

    /// The active cells miss no cell that the discrete rule would change, so
    /// that the next discrete frame is the one a scan of the whole grid gives.
    /// Steps keep this; writing to cells by hand or at random may break it
    /// until no cell is active again.
    pub open spec fn tracking_sound(&self) -> bool {
        tracking_sound(self@.cells, self@.width, self@.active)
    }

    /// Makes an engine with a grid of `size.0` columns and `size.1` rows.
    ///
    /// The cells inside `area` get a fresh random level each, as the rule asks
    /// (see `seeded`); every other cell holds zero. `area` gives the first and
    /// last column and the first and last row, all included; what reaches past
    /// the grid is cut off. No cell is active. The rule is `mode`, or the
    /// continuous one if none is given; the kernel radius is `kernel_radius`,
    /// or `DEFAULT_KERNEL_RADIUS`.
    pub fn new(
        size: (usize, usize),
        area: ((usize, usize), (usize, usize)),
        mode: Option<Mode>,
        kernel_radius: Option<usize>,
    ) -> (engine: Lenia)
        requires
            area.0.0 <= area.0.1,
            area.1.0 <= area.1.1,
        ensures
            engine.wf(),
            engine.tracking_sound(),
            engine@.width == size.0,
            engine@.cells.len() == size.1,
            engine@.active == Set::<(usize, usize)>::empty(),
            engine@.mode == match mode {
                Some(m) => m,
                None => Mode::Lenia,
            },
            engine@.kernel_radius == match kernel_radius {
                Some(r) => r,
                None => DEFAULT_KERNEL_RADIUS,
            },
            forall|r: int, c: int|
                0 <= r < size.1 && 0 <= c < size.0 ==> if in_area(area, r, c) {
                    seeded(engine@.mode, #[trigger] engine@.cells[r][c])
                } else {
                    engine@.cells[r][c] == 0
                },
    {
        let mode = match mode {
            Some(m) => m,
            None => Mode::Lenia,
        };
        let kernel_radius = match kernel_radius {
            Some(r) => r,
            None => DEFAULT_KERNEL_RADIUS,
        };
        let mut cells = blank_grid(size.0, size.1);
        seed_cells(&mut cells, size.0, area, mode);
        Lenia { cells, width: size.0, active_cells: empty_set(), mode, kernel_radius }
    }

    /// Gives every cell inside `area` a fresh random level, as the rule asks,
    /// and leaves every other cell, the size and the active cells as they are.
    /// `area` is read as in `new`.
    pub fn seed_region(&mut self, area: ((usize, usize), (usize, usize)))
        requires
            old(self).wf(),
            area.0.0 <= area.0.1,
            area.1.0 <= area.1.1,
        ensures
            final(self).wf(),
            final(self)@.width == old(self)@.width,
            final(self)@.cells.len() == old(self)@.cells.len(),
            final(self)@.active == old(self)@.active,
            final(self)@.mode == old(self)@.mode,
            final(self)@.kernel_radius == old(self)@.kernel_radius,
            forall|r: int, c: int|
                0 <= r < old(self)@.cells.len() && 0 <= c < old(self)@.width ==> if in_area(
                    area,
                    r,
                    c,
                ) {
                    seeded(old(self)@.mode, #[trigger] final(self)@.cells[r][c])
                } else {
                    final(self)@.cells[r][c] == old(self)@.cells[r][c]
                },
    {
        seed_cells(&mut self.cells, self.width, area, self.mode);
        proof {
            assert forall|cell: (usize, usize)| #[trigger]
                self@.active.contains(cell) implies in_grid(self@.cells, self@.width, cell) by {
                assert(old(self)@.active.contains(cell));
            }
        }
    }

    /// Sets every cell to zero. Size and active cells stay.
    pub fn clear(&mut self)
        requires
            old(self).wf(),
        ensures
            final(self).wf(),
            final(self).tracking_sound(),
            final(self)@.cells == blank(old(self)@.width, old(self)@.cells.len()),
            final(self)@.width == old(self)@.width,
            final(self)@.active == old(self)@.active,
            final(self)@.mode == old(self)@.mode,
            final(self)@.kernel_radius == old(self)@.kernel_radius,
    {
        let h = self.cells.len();
        self.cells = blank_grid(self.width, h);
        proof {
            lemma_blank_is_still(self.width as nat, h as nat);
            assert forall|cell: (usize, usize)| #[trigger]
                self@.active.contains(cell) implies in_grid(self@.cells, self@.width, cell) by {
                assert(old(self)@.active.contains(cell));
            }
        }
    }

    /// Writes `value` into the cell (`row`, `col`). Nothing else changes: the
    /// active cells are left as they are, so while some cell is active and
    /// this one is not, the next discrete frame does not look at it.
    pub fn set_cell(&mut self, row: usize, col: usize, value: u32)
        requires
            old(self).wf(),
            row < old(self)@.cells.len(),
            col < old(self)@.width,
            value <= FULL,
        ensures
            final(self).wf(),
            final(self)@.cells == old(self)@.cells.update(
                row as int,
                old(self)@.cells[row as int].update(col as int, value),
            ),
            final(self)@.width == old(self)@.width,
            final(self)@.active == old(self)@.active,
            final(self)@.mode == old(self)@.mode,
            final(self)@.kernel_radius == old(self)@.kernel_radius,
    {
        let ghost prior = levels(&self.cells);
        assert(prior[row as int].len() == self.width);
        self.cells[row][col] = value;
        proof {
            let now = levels(&self.cells);
            assert(now =~~= prior.update(row as int, prior[row as int].update(col as int, value)));
            assert forall|r: int, c: int| 0 <= r < now.len() && 0 <= c < self.width implies #[trigger] now[r][c] <= FULL by {
                if r == row && c == col {
                } else {
                    assert(now[r][c] == prior[r][c]);
                }
            }
            assert forall|cell: (usize, usize)| #[trigger]
                self@.active.contains(cell) implies in_grid(self@.cells, self@.width, cell) by {
                assert(old(self)@.active.contains(cell));
            }
        }
    }

    /// Cuts or grows the grid to `new_cell_width_count` columns and
    /// `new_cell_height_count` rows. A cell that lies in both the old and the
    /// new grid keeps its level; a new cell holds zero.
    ///
    /// With the size it already has, the engine is left untouched. With another
    /// size no cell is active afterwards, since the neighbours of the cells on
    /// the edges are no longer the same. The new grid is built aside: when the
    /// memory for it cannot be had, the result is an error and the engine is as
    /// it was.
    pub fn resize(&mut self, new_cell_width_count: usize, new_cell_height_count: usize) -> (done:
        Result<(), ResourceExhausted>)
        requires
            old(self).wf(),
        ensures
            final(self).wf(),
            old(self).tracking_sound() ==> final(self).tracking_sound(),
            final(self)@.mode == old(self)@.mode,
            final(self)@.kernel_radius == old(self)@.kernel_radius,
            done is Ok ==> {
                &&& final(self)@.width == new_cell_width_count
                &&& final(self)@.cells.len() == new_cell_height_count
                &&& forall|r: int|
                    0 <= r < new_cell_height_count ==> (#[trigger] final(self)@.cells[r]).len()
                        == new_cell_width_count
                &&& forall|r: int, c: int|
                    0 <= r < new_cell_height_count && r < old(self)@.cells.len() && 0 <= c
                        < new_cell_width_count && c < old(self)@.width
                        ==> #[trigger] final(self)@.cells[r][c] == old(self)@.cells[r][c]
                &&& final(self)@.cells == reshaped(
                    old(self)@.cells,
                    new_cell_width_count as nat,
                    new_cell_height_count as nat,
                )
                &&& final(self)@.active == if new_cell_width_count == old(self)@.width
                    && new_cell_height_count == old(self)@.cells.len() {
                    old(self)@.active
                } else {
                    Set::<(usize, usize)>::empty()
                }
            },
            done is Err ==> final(self)@ == old(self)@,
            new_cell_width_count == old(self)@.width
                && new_cell_height_count == old(self)@.cells.len() ==> done is Ok,
    {
        let old_w = self.width;
        let old_h = self.cells.len();
        let ghost g = levels(&self.cells);
        if new_cell_width_count == old_w && new_cell_height_count == old_h {
            assert(g =~~= reshaped(g, old_w as nat, old_h as nat));
            return Ok(());
        }
        let mut rows: Vec<Vec<u32>> = Vec::new();
        if rows.try_reserve(new_cell_height_count).is_err() {
            return Err(ResourceExhausted);
        }
        let mut r: usize = 0;
        while r < new_cell_height_count
            invariant
                r <= new_cell_height_count,
                old_w == self.width,
                old_h == self.cells.len(),
                g == levels(&self.cells),
                is_grid(g, old_w as nat),
                *self == *old(self),
                self.wf(),
                !(new_cell_width_count == old_w && new_cell_height_count == old_h),
                rows@.len() == r,
                forall|i: int|
                    0 <= i < r ==> (#[trigger] rows@[i])@ == reshaped(
                        g,
                        new_cell_width_count as nat,
                        new_cell_height_count as nat,
                    )[i],
            decreases new_cell_height_count - r,
        {
            let mut row: Vec<u32> = Vec::new();
            if row.try_reserve(new_cell_width_count).is_err() {
                return Err(ResourceExhausted);
            }
            let mut c: usize = 0;
            while c < new_cell_width_count
                invariant
                    c <= new_cell_width_count,
                    r < new_cell_height_count,
                    old_w == self.width,
                    old_h == self.cells.len(),
                    g == levels(&self.cells),
                    is_grid(g, old_w as nat),
                    row@.len() == c,
                    forall|j: int|
                        0 <= j < c ==> #[trigger] row@[j] == if r < old_h && j < old_w {
                            g[r as int][j]
                        } else {
                            0u32
                        },
                decreases new_cell_width_count - c,
            {
                let level = if r < old_h && c < old_w {
                    assert(g[r as int].len() == old_w);
                    self.cells[r][c]
                } else {
                    0
                };
                row.push(level);
                c += 1;
            }
            proof {
                assert(g.len() == old_h);
                assert(r < old_h ==> g[r as int].len() == old_w);
                assert(row@ =~= reshaped(
                    g,
                    new_cell_width_count as nat,
                    new_cell_height_count as nat,
                )[r as int]);
            }
            rows.push(row);
            r += 1;
        }
        proof {
            let target = reshaped(g, new_cell_width_count as nat, new_cell_height_count as nat);
            assert(levels(&rows) =~~= target);
            assert forall|i: int, j: int|
                0 <= i < target.len() && 0 <= j < new_cell_width_count implies #[trigger] target[i][j]
                <= FULL by {
                if i < g.len() && j < g[i].len() {
                    assert(g[i][j] <= FULL);
                }
            }
        }
        self.cells = rows;
        self.width = new_cell_width_count;
        self.active_cells = empty_set();
        Ok(())
    }

    /// The number of columns.
    pub fn width(&self) -> (w: usize)
        ensures
            w == self@.width,
    {
        self.width
    }

    /// The number of rows.
    pub fn height(&self) -> (h: usize)
        ensures
            h == self@.cells.len(),
    {
        self.cells.len()
    }

    /// The rule the engine runs.
    pub fn mode(&self) -> (mode: Mode)
        ensures
            mode == self@.mode,
    {
        self.mode
    }

    /// The kernel radius of the continuous rule, in cells.
    pub fn kernel_radius(&self) -> (radius: usize)
        ensures
            radius == self@.kernel_radius,
    {
        self.kernel_radius
    }

    /// The level of the cell (`row`, `col`).
    pub fn cell(&self, row: usize, col: usize) -> (level: u32)
        requires
            self.wf(),
            row < self@.cells.len(),
            col < self@.width,
        ensures
            level == self@.cells[row as int][col as int],
            level <= FULL,
    {
        assert(self@.cells[row as int].len() == self.width);
        self.cells[row][col]
    }

    /// The rows of the grid, for reading.
    pub fn cells(&self) -> (rows: &Vec<Vec<u32>>)
        ensures
            levels(rows) == self@.cells,
    {
        &self.cells
    }

    /// The active cells, each once, in no order to rely on.
    pub fn active_cells(&self) -> (cells: Vec<(usize, usize)>)
        ensures
            cells@.to_set() == self@.active,
            cells@.no_duplicates(),
    {
        cells_of(&self.active_cells)
    }

    /// Advances the grid by one frame, by the rule the engine runs.
    ///
    /// Under the discrete rule this is `compute_next_gol_frame`, and `changes`
    /// is not looked at. Under the continuous rule it is
    /// `compute_next_lenia_frame` with `changes`.
    pub fn compute_next_frame(&mut self, changes: &Vec<Vec<i64>>)
        requires
            old(self).wf(),
            old(self)@.mode == Mode::Lenia ==> fits(
                changes_of(changes),
                old(self)@.cells,
                old(self)@.width,
            ),
        ensures
            final(self).wf(),
            final(self)@.width == old(self)@.width,
            final(self)@.mode == old(self)@.mode,
            final(self)@.kernel_radius == old(self)@.kernel_radius,
            match old(self)@.mode {
                Mode::Lenia => {
                    &&& final(self)@.cells == grown(
                        old(self)@.cells,
                        old(self)@.width,
                        changes_of(changes),
                    )
                    &&& final(self)@.active == old(self)@.active
                },
                Mode::GameOfLife => {
                    &&& final(self)@.cells == step_cells(
                        old(self)@.cells,
                        old(self)@.width,
                        old(self)@.active,
                    )
                    &&& final(self)@.active == step_active(
                        old(self)@.cells,
                        old(self)@.width,
                        old(self)@.active,
                    )
                    &&& old(self).tracking_sound() ==> final(self).tracking_sound()
                },
            },
    {
        match self.mode {
            Mode::Lenia => self.compute_next_lenia_frame(changes),
            Mode::GameOfLife => self.compute_next_gol_frame(),
        }
    }

    /// Advances the grid by one frame of the continuous rule, given for every
    /// cell the change that the growth function asks of it, in levels: each
    /// cell becomes its level plus its change, held between zero and `FULL`
    /// however large the change. Every cell is renewed, from the frame before
    /// the call; size and active cells stay.
    pub fn compute_next_lenia_frame(&mut self, changes: &Vec<Vec<i64>>)
        requires
            old(self).wf(),
            fits(changes_of(changes), old(self)@.cells, old(self)@.width),
        ensures
            final(self).wf(),
            final(self)@.cells == grown(old(self)@.cells, old(self)@.width, changes_of(changes)),
            final(self)@.width == old(self)@.width,
            final(self)@.active == old(self)@.active,
            final(self)@.mode == old(self)@.mode,
            final(self)@.kernel_radius == old(self)@.kernel_radius,
    {
        let h = self.cells.len();
        let w = self.width;
        let ghost g = levels(&self.cells);
        let ghost target = grown(g, w as nat, changes_of(changes));
        let mut next: Vec<Vec<u32>> = Vec::new();
        let mut r: usize = 0;
        while r < h
            invariant
                r <= h,
                h == self.cells.len(),
                w == self.width,
                g == levels(&self.cells),
                is_grid(g, w as nat),
                fits(changes_of(changes), g, w as nat),
                target == grown(g, w as nat, changes_of(changes)),
                next@.len() == r,
                forall|i: int| 0 <= i < r ==> (#[trigger] next@[i])@ == target[i],
            decreases h - r,
        {
            let mut row: Vec<u32> = Vec::new();
            let mut c: usize = 0;
            assert(g[r as int].len() == w);
            assert(changes_of(changes)[r as int].len() == w);
            while c < w
                invariant
                    c <= w,
                    r < h,
                    h == self.cells.len(),
                    w == self.width,
                    g == levels(&self.cells),
                    g[r as int].len() == w,
                    changes_of(changes)[r as int].len() == w,
                    changes@.len() == h,
                    target == grown(g, w as nat, changes_of(changes)),
                    row@.len() == c,
                    forall|j: int| 0 <= j < c ==> #[trigger] row@[j] == target[r as int][j],
                decreases w - c,
            {
                let level = next_level(self.cells[r][c], changes[r][c]);
                row.push(level);
                c += 1;
            }
            assert(row@ =~= target[r as int]);
            next.push(row);
            r += 1;
        }
        proof {
            assert(levels(&next) =~~= target);
            assert forall|i: int, j: int| 0 <= i < target.len() && 0 <= j < w implies #[trigger] target[i][j]
                <= FULL by {}
        }
        self.cells = next;
        proof {
            assert forall|cell: (usize, usize)| #[trigger]
                self@.active.contains(cell) implies in_grid(self@.cells, self@.width, cell) by {
                assert(old(self)@.active.contains(cell));
            }
        }
    }

    /// Advances the grid by one frame of the discrete rule.
    ///
    /// With no active cell every cell is evaluated; otherwise the active cells
    /// are, and the others keep their level. Each new level is computed from
    /// the frame before the call. The cells that are active afterwards are
    /// those in the block of three by three around each evaluated cell whose
    /// level changed.
    pub fn compute_next_gol_frame(&mut self)
        requires
            old(self).wf(),
        ensures
            final(self).wf(),
            final(self)@.cells == step_cells(old(self)@.cells, old(self)@.width, old(self)@.active),
            final(self)@.active == step_active(old(self)@.cells, old(self)@.width, old(self)@.active),
            old(self).tracking_sound() ==> final(self).tracking_sound() && final(self)@.cells
                == full_step(old(self)@.cells, old(self)@.width),
            final(self)@.active.finite(),
            final(self)@.active.len() <= 9 * changed_cells(
                old(self)@.cells,
                old(self)@.width,
                scanned(old(self)@.cells, old(self)@.width, old(self)@.active),
            ).len(),
            final(self)@.width == old(self)@.width,
            final(self)@.mode == old(self)@.mode,
            final(self)@.kernel_radius == old(self)@.kernel_radius,
    {
        let h = self.cells.len();
        let w = self.width;
        let ghost g = levels(&self.cells);
        let mut next = copy_grid(&self.cells);
        let mut marks = empty_set();
        let ghost mut done: Set<(usize, usize)> = Set::empty();
        proof {
            assert(frame_after(g, w as nat, done) =~~= g);
            assert(marks_after(g, w as nat, done) =~= Set::<(usize, usize)>::empty());
        }
        if holds_nothing(&self.active_cells) {
            let mut row: usize = 0;
            while row < h
                invariant
                    row <= h,
                    h == self.cells.len(),
                    w == self.width,
                    g == levels(&self.cells),
                    is_grid(g, w as nat),
                    levels(&next) == frame_after(g, w as nat, done),
                    held(marks) == marks_after(g, w as nat, done),
                    done =~= Set::new(|cell: (usize, usize)| cell.0 < row && cell.1 < w),
                decreases h - row,
            {
                let mut col: usize = 0;
                while col < w
                    invariant
                        row < h,
                        col <= w,
                        h == self.cells.len(),
                        w == self.width,
                        g == levels(&self.cells),
                        is_grid(g, w as nat),
                        levels(&next) == frame_after(g, w as nat, done),
                        held(marks) == marks_after(g, w as nat, done),
                        done =~= Set::new(
                            |cell: (usize, usize)|
                                (cell.0 < row && cell.1 < w) || (cell.0 == row && cell.1 < col),
                        ),
                    decreases w - col,
                {
                    proof {
                        lemma_frame_grows(g, w as nat, done, (row, col));
                        lemma_marks_grow(g, w as nat, done, (row, col));
                    }
                    update_cell(&self.cells, w, row, col, &mut next, &mut marks);
                    proof {
                        done = done.insert((row, col));
                    }
                    col += 1;
                }
                row += 1;
            }
            proof {
                assert(done =~= all_cells(g, w as nat));
            }
        } else {
            let list = cells_of(&self.active_cells);
            let mut k: usize = 0;
            proof {
                assert forall|i: int| 0 <= i < list.len() implies in_grid(
                    g,
                    w as nat,
                    #[trigger] list@[i],
                ) by {
                    assert(list@.contains(list@[i]));
                    assert(list@.to_set().contains(list@[i]));
                    assert(self@.active.contains(list@[i]));
                    assert(in_grid(self@.cells, self@.width, list@[i]));
                }
            }
            while k < list.len()
                invariant
                    k <= list.len(),
                    h == self.cells.len(),
                    w == self.width,
                    g == levels(&self.cells),
                    is_grid(g, w as nat),
                    forall|i: int| 0 <= i < list.len() ==> in_grid(g, w as nat, #[trigger] list@[i]),
                    levels(&next) == frame_after(g, w as nat, done),
                    held(marks) == marks_after(g, w as nat, done),
                    done =~= Set::new(
                        |cell: (usize, usize)| exists|i: int| 0 <= i < k && #[trigger] list@[i] == cell,
                    ),
                decreases list.len() - k,
            {
                let (row, col) = list[k];
                proof {
                    lemma_frame_grows(g, w as nat, done, (row, col));
                    lemma_marks_grow(g, w as nat, done, (row, col));
                }
                update_cell(&self.cells, w, row, col, &mut next, &mut marks);
                proof {
                    done = done.insert((row, col));
                }
                k += 1;
            }
            proof {
                assert(done =~= held(self.active_cells));
            }
        }
        proof {
            lemma_step_keeps_grid(g, w as nat, done);
            lemma_marks_bounded(g, w as nat, done);
            if old(self).tracking_sound() {
                lemma_sound_step(g, w as nat, held(self.active_cells));
            }
        }
        self.cells = next;
        self.active_cells = marks;
    }
}

} // verus!
