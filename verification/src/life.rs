//! The discrete rule: Conway's Life on a grid of levels, and the set of
//! active cells that lets a frame skip the cells that cannot change.

use vstd::prelude::*;
use vstd::arithmetic::div_mod::lemma_fundamental_div_mod_converse;
use vstd::set_lib::{lemma_int_range, lemma_len_subset, lemma_len_union, lemma_set_subset_finite, set_int_range};
use crate::grid::{blank, is_grid, levels, FULL};

verus! {

/// The place before `i` on a ring of `n` places: the first place has the last
/// one before it.
pub open spec fn ring_prev(i: int, n: int) -> int {
    if i == 0 {
        n - 1
    } else {
        i - 1
    }
}

/// The place after `i` on a ring of `n` places: the last place has the first
/// one after it.
pub open spec fn ring_next(i: int, n: int) -> int {
    if i == n - 1 {
        0
    } else {
        i + 1
    }
}

/// The sum of the levels of the eight cells around (`row`, `col`), both axes
/// taken as rings. On a grid with one row or one column a cell is its own
/// neighbour, and counts once for each of the eight places it takes.
pub open spec fn neighbour_sum(g: Seq<Seq<u32>>, row: int, col: int) -> int {
    let top = ring_prev(row, g.len() as int);
    let bottom = ring_next(row, g.len() as int);
    let left = ring_prev(col, g[row].len() as int);
    let right = ring_next(col, g[row].len() as int);
    g[top][left] + g[top][col] + g[top][right] + g[row][left] + g[row][right] + g[bottom][left]
        + g[bottom][col] + g[bottom][right]
}

/// The number of live neighbours the rule sees: the sum of the eight
/// intensities around the cell, cut to a whole number. Partial levels add up
/// before the cut.
pub open spec fn live_neighbours(g: Seq<Seq<u32>>, row: int, col: int) -> int {
    neighbour_sum(g, row, col) / (FULL as int)
}

/// A cell is alive when it holds exactly `FULL`.
pub open spec fn alive(g: Seq<Seq<u32>>, row: int, col: int) -> bool {
    g[row][col] == FULL
}

/// The level the rule gives (`row`, `col`) in the next frame: `FULL` for a
/// live cell with two or three live neighbours and for a dead cell with
/// three, zero otherwise.
pub open spec fn next_state(g: Seq<Seq<u32>>, row: int, col: int) -> u32 {
    let n = live_neighbours(g, row, col);
    if (alive(g, row, col) && (n == 2 || n == 3)) || (!alive(g, row, col) && n == 3) {
        FULL
    } else {
        0u32
    }
}

/// Whether `cell` names a cell of a grid of `g.len()` rows and `width` columns.
pub open spec fn in_grid(g: Seq<Seq<u32>>, width: nat, cell: (usize, usize)) -> bool {
    cell.0 < g.len() && cell.1 < width
}

/// Whether the rule gives `cell` another level than the one it holds.
pub open spec fn changes(g: Seq<Seq<u32>>, cell: (usize, usize)) -> bool {
    next_state(g, cell.0 as int, cell.1 as int) != g[cell.0 as int][cell.1 as int]
}

/// Whether `cell` is `centre` or one of the eight cells around it, on a grid
/// of `height` rows and `width` columns.
pub open spec fn adjacent(centre: (usize, usize), cell: (usize, usize), height: int, width: int) -> bool {
    &&& (cell.0 == centre.0 || cell.0 == ring_prev(centre.0 as int, height) || cell.0 == ring_next(
        centre.0 as int,
        height,
    ))
    &&& (cell.1 == centre.1 || cell.1 == ring_prev(centre.1 as int, width) || cell.1 == ring_next(
        centre.1 as int,
        width,
    ))
}

/// A cell and the eight cells around it.
pub open spec fn block_around(centre: (usize, usize), height: int, width: int) -> Set<(usize, usize)> {
    Set::new(|cell: (usize, usize)| adjacent(centre, cell, height, width))
}

/// Every cell of the grid.
pub open spec fn all_cells(g: Seq<Seq<u32>>, width: nat) -> Set<(usize, usize)> {
    Set::new(|cell: (usize, usize)| in_grid(g, width, cell))
}

/// The cells that a frame evaluates: the active ones, or every cell when
/// none is active.
pub open spec fn scanned(g: Seq<Seq<u32>>, width: nat, active: Set<(usize, usize)>) -> Set<(usize, usize)> {
    if active == Set::<(usize, usize)>::empty() {
        all_cells(g, width)
    } else {
        active
    }
}

/// The frame that follows `g` when the cells in `evaluated` get the level the
/// rule gives them and every other cell keeps its own. Each new level is read
/// off `g`, never off a cell already renewed.
pub open spec fn frame_after(g: Seq<Seq<u32>>, width: nat, evaluated: Set<(usize, usize)>) -> Seq<Seq<u32>> {
    Seq::new(
        g.len(),
        |r: int|
            Seq::new(
                width,
                |c: int|
                    if evaluated.contains((r as usize, c as usize)) {
                        next_state(g, r, c)
                    } else {
                        g[r][c]
                    },
            ),
    )
}

/// The cells that are active after that frame: around every evaluated cell whose
/// level changed, the cell and its eight neighbours.
pub open spec fn marks_after(g: Seq<Seq<u32>>, width: nat, evaluated: Set<(usize, usize)>) -> Set<(usize, usize)> {
    Set::new(
        |cell: (usize, usize)|
            exists|centre: (usize, usize)|
                #![trigger evaluated.contains(centre)]
                evaluated.contains(centre) && in_grid(g, width, centre) && changes(g, centre)
                    && adjacent(centre, cell, g.len() as int, width as int),
    )
}

/// The frame that one step makes of `g` with the active cells `active`.
pub open spec fn step_cells(g: Seq<Seq<u32>>, width: nat, active: Set<(usize, usize)>) -> Seq<Seq<u32>> {
    frame_after(g, width, scanned(g, width, active))
}

/// The active cells that one step leaves.
pub open spec fn step_active(g: Seq<Seq<u32>>, width: nat, active: Set<(usize, usize)>) -> Set<(usize, usize)> {
    marks_after(g, width, scanned(g, width, active))
}

/// The frame that follows `g` when every cell is evaluated.
pub open spec fn full_step(g: Seq<Seq<u32>>, width: nat) -> Seq<Seq<u32>> {
    frame_after(g, width, all_cells(g, width))
}

/// Evaluating one more cell renews that cell in the frame and nothing else.
pub proof fn lemma_frame_grows(g: Seq<Seq<u32>>, width: nat, done: Set<(usize, usize)>, cell: (usize, usize))
    requires
        is_grid(g, width),
        in_grid(g, width, cell),
    ensures
        frame_after(g, width, done.insert(cell)) == frame_after(g, width, done).update(
            cell.0 as int,
            frame_after(g, width, done)[cell.0 as int].update(
                cell.1 as int,
                next_state(g, cell.0 as int, cell.1 as int),
            ),
        ),
{
    let a = frame_after(g, width, done.insert(cell));
    let b = frame_after(g, width, done).update(
        cell.0 as int,
        frame_after(g, width, done)[cell.0 as int].update(
            cell.1 as int,
            next_state(g, cell.0 as int, cell.1 as int),
        ),
    );
    assert forall|r: int| 0 <= r < g.len() implies #[trigger] a[r] =~= b[r] by {
        assert forall|c: int| 0 <= c < width implies a[r][c] == b[r][c] by {
            if (r as usize, c as usize) == cell {
            } else {
                assert(done.insert(cell).contains((r as usize, c as usize)) == done.contains(
                    (r as usize, c as usize),
                ));
            }
        }
    }
    assert(a =~= b);
}

/// Evaluating one more cell adds its block to the marks if it changed, and
/// nothing otherwise.
pub proof fn lemma_marks_grow(g: Seq<Seq<u32>>, width: nat, done: Set<(usize, usize)>, cell: (usize, usize))
    requires
        in_grid(g, width, cell),
    ensures
        marks_after(g, width, done.insert(cell)) == if changes(g, cell) {
            marks_after(g, width, done).union(block_around(cell, g.len() as int, width as int))
        } else {
            marks_after(g, width, done)
        },
{
    let a = marks_after(g, width, done.insert(cell));
    let b = if changes(g, cell) {
        marks_after(g, width, done).union(block_around(cell, g.len() as int, width as int))
    } else {
        marks_after(g, width, done)
    };
    assert forall|p: (usize, usize)| a.contains(p) implies b.contains(p) by {
        let centre = choose|centre: (usize, usize)|
            #![trigger done.insert(cell).contains(centre)]
            done.insert(cell).contains(centre) && in_grid(g, width, centre) && changes(g, centre)
                && adjacent(centre, p, g.len() as int, width as int);
        if centre == cell {
        } else {
            assert(done.contains(centre));
        }
    }
    assert forall|p: (usize, usize)| b.contains(p) implies a.contains(p) by {
        if marks_after(g, width, done).contains(p) {
            let centre = choose|centre: (usize, usize)|
                #![trigger done.contains(centre)]
                done.contains(centre) && in_grid(g, width, centre) && changes(g, centre)
                    && adjacent(centre, p, g.len() as int, width as int);
            assert(done.insert(cell).contains(centre));
        } else {
            assert(done.insert(cell).contains(cell));
        }
    }
    assert(a =~= b);
}

/// A frame of the rule is a grid of the same shape, and its marks lie on it.
pub proof fn lemma_step_keeps_grid(g: Seq<Seq<u32>>, width: nat, evaluated: Set<(usize, usize)>)
    requires
        is_grid(g, width),
    ensures
        is_grid(frame_after(g, width, evaluated), width),
        frame_after(g, width, evaluated).len() == g.len(),
        forall|cell: (usize, usize)| #[trigger]
            marks_after(g, width, evaluated).contains(cell) ==> in_grid(g, width, cell),
{
    let f = frame_after(g, width, evaluated);
    assert forall|r: int, c: int| 0 <= r < f.len() && 0 <= c < width implies #[trigger] f[r][c]
        <= FULL by {
        assert(g[r][c] <= FULL);
    }
}

/// The evaluated cells whose level the rule changes.
pub open spec fn changed_cells(g: Seq<Seq<u32>>, width: nat, evaluated: Set<(usize, usize)>) -> Set<
    (usize, usize),
> {
    Set::new(
        |cell: (usize, usize)|
            evaluated.contains(cell) && in_grid(g, width, cell) && changes(g, cell),
    )
}

/// The cells of the blocks around the cells in `centres`.
spec fn blocks_around(centres: Set<(usize, usize)>, height: int, width: int) -> Set<(usize, usize)> {
    Set::new(
        |cell: (usize, usize)|
            exists|centre: (usize, usize)|
                #![trigger centres.contains(centre)]
                centres.contains(centre) && adjacent(centre, cell, height, width),
    )
}

/// A grid has finitely many cells.
proof fn lemma_all_cells_finite(g: Seq<Seq<u32>>, width: nat)
    ensures
        all_cells(g, width).finite(),
{
    let w = width as int;
    let h = g.len() as int;
    let range = set_int_range(0, h * w);
    let place = |k: int| ((k / w) as usize, (k % w) as usize);
    lemma_int_range(0, h * w);
    range.lemma_map_finite(place);
    assert forall|cell: (usize, usize)| all_cells(g, width).contains(cell) implies range.map(
        place,
    ).contains(cell) by {
        let k = cell.0 * w + cell.1;
        lemma_fundamental_div_mod_converse(k, w, cell.0 as int, cell.1 as int);
        assert(k < h * w) by (nonlinear_arith)
            requires
                0 <= cell.0 < h,
                0 <= cell.1 < w,
                k == cell.0 * w + cell.1,
        ;
        assert(0 <= k) by (nonlinear_arith)
            requires
                0 <= cell.0,
                0 <= cell.1,
                0 <= w,
                k == cell.0 * w + cell.1,
        ;
        assert(range.contains(k));
        assert(place(k) == cell);
    }
    lemma_set_subset_finite(range.map(place), all_cells(g, width));
}

/// A block holds nine cells at most.
proof fn lemma_block_is_small(centre: (usize, usize), height: int, width: int)
    ensures
        block_around(centre, height, width).finite(),
        block_around(centre, height, width).len() <= 9,
{
    let top = ring_prev(centre.0 as int, height) as usize;
    let bottom = ring_next(centre.0 as int, height) as usize;
    let left = ring_prev(centre.1 as int, width) as usize;
    let right = ring_next(centre.1 as int, width) as usize;
    let nine = Set::<(usize, usize)>::empty().insert((top, left)).insert((top, centre.1)).insert(
        (top, right),
    ).insert((centre.0, left)).insert(centre).insert((centre.0, right)).insert(
        (bottom, left),
    ).insert((bottom, centre.1)).insert((bottom, right));
    assert(nine.finite());
    assert(nine.len() <= 9);
    assert(block_around(centre, height, width).subset_of(nine));
    lemma_set_subset_finite(nine, block_around(centre, height, width));
    lemma_len_subset(block_around(centre, height, width), nine);
}

/// The blocks around finitely many cells hold nine cells for each at most.
proof fn lemma_blocks_are_small(centres: Set<(usize, usize)>, height: int, width: int)
    requires
        centres.finite(),
    ensures
        blocks_around(centres, height, width).finite(),
        blocks_around(centres, height, width).len() <= 9 * centres.len(),
    decreases centres.len(),
{
    if centres.len() == 0 {
        centres.lemma_len0_is_empty();
        assert(blocks_around(centres, height, width) =~= Set::empty());
    } else {
        let one = centres.choose();
        let rest = centres.remove(one);
        lemma_blocks_are_small(rest, height, width);
        lemma_block_is_small(one, height, width);
        let joined = blocks_around(rest, height, width).union(block_around(one, height, width));
        assert forall|cell: (usize, usize)|
            blocks_around(centres, height, width).contains(cell) implies joined.contains(cell) by {
            let centre = choose|centre: (usize, usize)|
                #![trigger centres.contains(centre)]
                centres.contains(centre) && adjacent(centre, cell, height, width);
            if centre != one {
                assert(rest.contains(centre));
            }
        }
        assert forall|cell: (usize, usize)| joined.contains(cell) implies blocks_around(
            centres,
            height,
            width,
        ).contains(cell) by {
            if blocks_around(rest, height, width).contains(cell) {
                let centre = choose|centre: (usize, usize)|
                    #![trigger rest.contains(centre)]
                    rest.contains(centre) && adjacent(centre, cell, height, width);
                assert(centres.contains(centre));
            } else {
                assert(centres.contains(one));
            }
        }
        assert(blocks_around(centres, height, width) =~= joined);
        lemma_len_union(blocks_around(rest, height, width), block_around(one, height, width));
    }
}

/// The active cells a frame leaves are never more than nine for each cell
/// that changed.
pub proof fn lemma_marks_bounded(g: Seq<Seq<u32>>, width: nat, evaluated: Set<(usize, usize)>)
    ensures
        changed_cells(g, width, evaluated).finite(),
        marks_after(g, width, evaluated).finite(),
        marks_after(g, width, evaluated).len() <= 9 * changed_cells(g, width, evaluated).len(),
{
    let changed = changed_cells(g, width, evaluated);
    let h = g.len() as int;
    let w = width as int;
    lemma_all_cells_finite(g, width);
    assert(changed.subset_of(all_cells(g, width)));
    lemma_set_subset_finite(all_cells(g, width), changed);
    lemma_blocks_are_small(changed, h, w);
    assert forall|cell: (usize, usize)|
        marks_after(g, width, evaluated).contains(cell) implies blocks_around(
        changed,
        h,
        w,
    ).contains(cell) by {
        let centre = choose|centre: (usize, usize)|
            #![trigger evaluated.contains(centre)]
            evaluated.contains(centre) && in_grid(g, width, centre) && changes(g, centre)
                && adjacent(centre, cell, h, w);
        assert(changed.contains(centre));
    }
    assert forall|cell: (usize, usize)|
        blocks_around(changed, h, w).contains(cell) implies marks_after(
        g,
        width,
        evaluated,
    ).contains(cell) by {
        let centre = choose|centre: (usize, usize)|
            #![trigger changed.contains(centre)]
            changed.contains(centre) && adjacent(centre, cell, h, w);
        assert(evaluated.contains(centre));
    }
    assert(marks_after(g, width, evaluated) =~= blocks_around(changed, h, w));
}

/// The active cells miss no cell that the rule would change: none is active
/// (the next frame then evaluates every cell), or every cell that is not
/// active keeps its level under the rule.
pub open spec fn tracking_sound(g: Seq<Seq<u32>>, width: nat, active: Set<(usize, usize)>) -> bool {
    active == Set::<(usize, usize)>::empty() || forall|cell: (usize, usize)|
        in_grid(g, width, cell) && !active.contains(cell) ==> !#[trigger] changes(g, cell)
}

/// Around a cell that a step leaves inactive, the step changed nothing.
proof fn lemma_quiet_block(
    g: Seq<Seq<u32>>,
    width: nat,
    active: Set<(usize, usize)>,
    cell: (usize, usize),
    near: (usize, usize),
)
    requires
        is_grid(g, width),
        tracking_sound(g, width, active),
        in_grid(g, width, cell),
        in_grid(g, width, near),
        adjacent(near, cell, g.len() as int, width as int),
        !step_active(g, width, active).contains(cell),
    ensures
        !changes(g, near),
        step_cells(g, width, active)[near.0 as int][near.1 as int] == g[near.0 as int][near.1 as int],
{
    if scanned(g, width, active).contains(near) {
    } else {
        assert(all_cells(g, width).contains(near));
    }
}

/// One step from sound active cells gives the frame that evaluating every
/// cell gives, and leaves active cells that are sound for that frame.
pub proof fn lemma_sound_step(g: Seq<Seq<u32>>, width: nat, active: Set<(usize, usize)>)
    requires
        is_grid(g, width),
        tracking_sound(g, width, active),
    ensures
        step_cells(g, width, active) == full_step(g, width),
        tracking_sound(step_cells(g, width, active), width, step_active(g, width, active)),
{
    let stepped = step_cells(g, width, active);
    let full = full_step(g, width);
    let marks = step_active(g, width, active);
    let h = g.len() as int;
    let w = width as int;
    assert forall|r: int| 0 <= r < g.len() implies #[trigger] stepped[r] =~= full[r] by {
        assert forall|c: int| 0 <= c < width implies stepped[r][c] == full[r][c] by {
            let cell = (r as usize, c as usize);
            assert(in_grid(g, width, cell));
            assert(all_cells(g, width).contains(cell));
            if !scanned(g, width, active).contains(cell) {
                assert(!changes(g, cell));
            }
        }
    }
    assert(stepped =~= full);
    assert forall|cell: (usize, usize)|
        in_grid(stepped, width, cell) && !marks.contains(cell) implies !#[trigger] changes(
        stepped,
        cell,
    ) by {
        let top = ring_prev(cell.0 as int, h) as usize;
        let bottom = ring_next(cell.0 as int, h) as usize;
        let left = ring_prev(cell.1 as int, w) as usize;
        let right = ring_next(cell.1 as int, w) as usize;
        lemma_quiet_block(g, width, active, cell, cell);
        lemma_quiet_block(g, width, active, cell, (top, left));
        lemma_quiet_block(g, width, active, cell, (top, cell.1));
        lemma_quiet_block(g, width, active, cell, (top, right));
        lemma_quiet_block(g, width, active, cell, (cell.0, left));
        lemma_quiet_block(g, width, active, cell, (cell.0, right));
        lemma_quiet_block(g, width, active, cell, (bottom, left));
        lemma_quiet_block(g, width, active, cell, (bottom, cell.1));
        lemma_quiet_block(g, width, active, cell, (bottom, right));
        assert(neighbour_sum(stepped, cell.0 as int, cell.1 as int) == neighbour_sum(
            g,
            cell.0 as int,
            cell.1 as int,
        ));
        assert(next_state(stepped, cell.0 as int, cell.1 as int) == next_state(
            g,
            cell.0 as int,
            cell.1 as int,
        ));
    }
}

/// On a grid of zeros the rule changes no cell, so any active cells are sound.
pub proof fn lemma_blank_is_still(width: nat, height: nat)
    ensures
        forall|active: Set<(usize, usize)>| #[trigger]
            tracking_sound(blank(width, height), width, active),
{
    let g = blank(width, height);
    assert forall|active: Set<(usize, usize)>| #[trigger] tracking_sound(g, width, active) by {
        assert forall|cell: (usize, usize)| in_grid(g, width, cell) implies !#[trigger] changes(
            g,
            cell,
        ) by {
            assert(neighbour_sum(g, cell.0 as int, cell.1 as int) == 0);
        }
    }
}

/// The frame and the active cells after `n` steps from `g` and `active`.
pub open spec fn run(g: Seq<Seq<u32>>, width: nat, active: Set<(usize, usize)>, n: nat) -> (
    Seq<Seq<u32>>,
    Set<(usize, usize)>,
)
    decreases n,
{
    if n == 0 {
        (g, active)
    } else {
        let before = run(g, width, active, (n - 1) as nat);
        (step_cells(before.0, width, before.1), step_active(before.0, width, before.1))
    }
}

/// The frame after `n` steps from `g` when each step evaluates every cell.
pub open spec fn full_run(g: Seq<Seq<u32>>, width: nat, n: nat) -> Seq<Seq<u32>>
    decreases n,
{
    if n == 0 {
        g
    } else {
        full_step(full_run(g, width, (n - 1) as nat), width)
    }
}

/// Started with no active cell, any number of steps gives the frames that
/// evaluating every cell at every step gives: skipping the cells that are not
/// active never changes a frame.
pub proof fn lemma_run_matches_full_run(g: Seq<Seq<u32>>, width: nat, n: nat)
    requires
        is_grid(g, width),
    ensures
        run(g, width, Set::empty(), n).0 == full_run(g, width, n),
        is_grid(run(g, width, Set::empty(), n).0, width),
        tracking_sound(run(g, width, Set::empty(), n).0, width, run(g, width, Set::empty(), n).1),
    decreases n,
{
    if n > 0 {
        lemma_run_matches_full_run(g, width, (n - 1) as nat);
        let before = run(g, width, Set::empty(), (n - 1) as nat);
        lemma_sound_step(before.0, width, before.1);
        lemma_step_keeps_grid(before.0, width, scanned(before.0, width, before.1));
    }
}

/// The place before `i` on a ring of `n` places.
pub fn before(i: usize, n: usize) -> (j: usize)
    requires
        i < n,
    ensures
        j == ring_prev(i as int, n as int),
        j < n,
{
    if i == 0 {
        n - 1
    } else {
        i - 1
    }
}

/// The place after `i` on a ring of `n` places.
pub fn after(i: usize, n: usize) -> (j: usize)
    requires
        i < n,
    ensures
        j == ring_next(i as int, n as int),
        j < n,
{
    if i == n - 1 {
        0
    } else {
        i + 1
    }
}

/// The next level of one cell, computed from the frame `cells` alone, and
/// whether it differs from the level the cell holds now.
pub fn next_cell_state(cells: &Vec<Vec<u32>>, row: usize, col: usize) -> (out: (u32, bool))
    requires
        row < cells.len(),
        col < cells[row as int].len(),
        is_grid(levels(cells), cells[row as int]@.len()),
    ensures
        out.0 == next_state(levels(cells), row as int, col as int),
        out.1 == (out.0 != levels(cells)[row as int][col as int]),
{
    let h = cells.len();
    let w = cells[row].len();
    let top = before(row, h);
    let bottom = after(row, h);
    let left = before(col, w);
    let right = after(col, w);
    proof {
        let g = levels(cells);
        assert(g[top as int].len() == w && g[bottom as int].len() == w && g[row as int].len() == w);
        assert(g[top as int][left as int] <= FULL);
        assert(g[top as int][col as int] <= FULL);
        assert(g[top as int][right as int] <= FULL);
        assert(g[row as int][left as int] <= FULL);
        assert(g[row as int][right as int] <= FULL);
        assert(g[bottom as int][left as int] <= FULL);
        assert(g[bottom as int][col as int] <= FULL);
        assert(g[bottom as int][right as int] <= FULL);
    }
    let sum: u32 = cells[top][left] + cells[top][col] + cells[top][right] + cells[row][left]
        + cells[row][right] + cells[bottom][left] + cells[bottom][col] + cells[bottom][right];
    let count: u32 = sum / FULL;
    let is_alive = cells[row][col] == FULL;
    let next: u32 = if (is_alive && (count == 2 || count == 3)) || (!is_alive && count == 3) {
        FULL
    } else {
        0
    };
    (next, next != cells[row][col])
}

} // verus!
