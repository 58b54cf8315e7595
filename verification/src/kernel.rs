//! The continuous rule, as far as whole numbers carry it: which cells a cell
//! listens to and at what distance, and how a change is applied to a level.
//! The weights of the kernel and the growth function work on real numbers and
//! are left to the caller.

use vstd::prelude::*;
use vstd::arithmetic::div_mod::{
    lemma_add_mod_noop, lemma_fundamental_div_mod_converse, lemma_mod_add_multiples_vanish,
    lemma_mod_twice, lemma_sub_mod_noop,
};
use vstd::math::abs;
use crate::grid::{is_grid, levels, FULL};

verus! {

/// The side of the square of cells that is scanned around a cell.
pub open spec fn scan_side(radius: nat) -> int {
    2 * (radius as int) + 1
}

/// The `k`-th offset of the scan, as (rows down, columns right): the square is
/// scanned row by row from its top left corner.
pub open spec fn scan_offset(radius: nat, k: int) -> (int, int) {
    (k / scan_side(radius) - radius, k % scan_side(radius) - radius)
}

/// The distance that an offset stands for: rows and columns added.
pub open spec fn distance(offset: (int, int)) -> nat {
    abs(offset.0) + abs(offset.1)
}

/// Whether the kernel reaches the cell at `offset`: it reaches every cell
/// within the distance `radius` but the centre.
pub open spec fn in_kernel(radius: nat, offset: (int, int)) -> bool {
    offset != (0int, 0int) && distance(offset) <= radius
}

/// The place that `i` names on an axis of `n` places under the continuous
/// rule, which wraps by `n - 1`: the last place is never reached by wrapping.
pub open spec fn wrap_short(i: int, n: int) -> int {
    i % (n - 1)
}

/// What the cell (`row`, `col`) hears from the cell at `offset`: the distance
/// and the level found there.
pub open spec fn tap(g: Seq<Seq<u32>>, row: int, col: int, offset: (int, int)) -> (usize, u32) {
    (
        distance(offset) as usize,
        g[wrap_short(row + offset.0, g.len() as int)][wrap_short(
            col + offset.1,
            g[row].len() as int,
        )],
    )
}

/// What the `k`-th place of the scan contributes, if the kernel reaches it.
pub open spec fn tap_at(g: Seq<Seq<u32>>, radius: nat, row: int, col: int, k: int) -> Option<
    (usize, u32),
> {
    if in_kernel(radius, scan_offset(radius, k)) {
        Some(tap(g, row, col, scan_offset(radius, k)))
    } else {
        None
    }
}

/// What the first `count` places of the scan contribute, in scan order.
pub open spec fn heard_before(g: Seq<Seq<u32>>, radius: nat, row: int, col: int, count: nat) -> Seq<
    (usize, u32),
> {
    Seq::new(count, |k: int| k).filter_map(|k: int| tap_at(g, radius, row, col, k))
}

/// Everything the cell (`row`, `col`) hears: for each cell that the kernel
/// reaches, in scan order, its distance and its level.
pub open spec fn heard(g: Seq<Seq<u32>>, radius: nat, row: int, col: int) -> Seq<(usize, u32)> {
    heard_before(g, radius, row, col, (scan_side(radius) * scan_side(radius)) as nat)
}

/// The level that follows `current` when it changes by `change` levels: the
/// sum, held between zero and `FULL` however large the change.
pub open spec fn changed_level(current: u32, change: i64) -> int {
    if current + change < 0 {
        0
    } else if current + change > FULL {
        FULL as int
    } else {
        current + change
    }
}

/// The rows of a stored field of changes, one change for each cell.
pub open spec fn changes_of(changes: &Vec<Vec<i64>>) -> Seq<Seq<i64>> {
    Seq::new(changes@.len(), |r: int| changes@[r]@)
}

/// Whether `changes` has a change for every cell of `g` and no more.
pub open spec fn fits(changes: Seq<Seq<i64>>, g: Seq<Seq<u32>>, width: nat) -> bool {
    &&& changes.len() == g.len()
    &&& forall|r: int| 0 <= r < changes.len() ==> (#[trigger] changes[r]).len() == width
}

/// The frame that follows `g` when every cell changes by its entry in
/// `changes`.
pub open spec fn grown(g: Seq<Seq<u32>>, width: nat, changes: Seq<Seq<i64>>) -> Seq<Seq<u32>> {
    Seq::new(
        g.len(),
        |r: int| Seq::new(width, |c: int| changed_level(g[r][c], changes[r][c]) as u32),
    )
}

/// One more place of the scan adds its tap, if it has one, at the end.
proof fn lemma_heard_grows(g: Seq<Seq<u32>>, radius: nat, row: int, col: int, count: nat)
    ensures
        heard_before(g, radius, row, col, count + 1) == match tap_at(
            g,
            radius,
            row,
            col,
            count as int,
        ) {
            Some(t) => heard_before(g, radius, row, col, count).push(t),
            None => heard_before(g, radius, row, col, count),
        },
{
    let longer = Seq::new(count + 1, |k: int| k);
    let shorter = Seq::new(count, |k: int| k);
    let f = |k: int| tap_at(g, radius, row, col, k);
    assert(longer.drop_last() =~= shorter);
    assert(longer.last() == count);
    match f(count as int) {
        Some(t) => {
            assert(shorter.filter_map(f) + seq![t] =~= shorter.filter_map(f).push(t));
        },
        None => {},
    }
}

/// The place `place - back + forth` on an axis of `n` places, wrapped by
/// `n - 1`.
fn wrapped(place: usize, back: usize, forth: usize, n: usize) -> (k: usize)
    requires
        n >= 2,
    ensures
        k == wrap_short(place - back + forth, n as int),
        k < n - 1,
{
    let m = (n - 1) as u128;
    let p = (place as u128) % m;
    let b = (back as u128) % m;
    let f = (forth as u128) % m;
    let k = (p + m - b + f) % m;
    proof {
        let mi = m as int;
        let place_i = place as int;
        let back_i = back as int;
        let forth_i = forth as int;
        let pi = p as int;
        let bi = b as int;
        let fi = f as int;
        lemma_add_mod_noop(place_i - back_i, forth_i, mi);
        lemma_sub_mod_noop(place_i, back_i, mi);
        lemma_add_mod_noop(pi - bi, fi, mi);
        lemma_mod_twice(forth_i, mi);
        lemma_mod_add_multiples_vanish(pi - bi + fi, mi);
        assert((place_i - back_i + forth_i) % mi == (pi - bi + fi) % mi);
        assert((pi + mi - bi + fi) == mi + (pi - bi + fi));
    }
    k as usize
}

/// The cells that (`row`, `col`) listens to under the continuous rule with a
/// kernel of radius `kernel_radius`: the square of side `2 * kernel_radius + 1`
/// around the cell is scanned row by row; every cell of it within the distance
/// `kernel_radius`, rows and columns added, but the cell itself, gives its
/// distance and the level read at its place, both axes wrapped by one less
/// than their length.
pub fn neighbourhood(cells: &Vec<Vec<u32>>, kernel_radius: usize, row: usize, col: usize) -> (taps:
    Vec<(usize, u32)>)
    requires
        row < cells.len(),
        col < cells[row as int].len(),
        is_grid(levels(cells), cells[row as int]@.len()),
        kernel_radius >= 1 ==> cells.len() >= 2 && cells[row as int].len() >= 2,
        2 * kernel_radius < usize::MAX,
    ensures
        taps@ == heard(levels(cells), kernel_radius as nat, row as int, col as int),
{
    let h = cells.len();
    let w = cells[row].len();
    let side = 2 * kernel_radius + 1;
    let ghost g = levels(cells);
    let ghost radius = kernel_radius as nat;
    let mut taps: Vec<(usize, u32)> = Vec::new();
    let ghost mut count: nat = 0;
    assert(heard_before(g, radius, row as int, col as int, 0) =~= Seq::empty());
    let mut i: usize = 0;
    while i < side
        invariant
            i <= side,
            side == scan_side(radius),
            radius == kernel_radius,
            h == cells.len(),
            w == cells[row as int].len(),
            row < h,
            col < w,
            g == levels(cells),
            is_grid(g, w as nat),
            kernel_radius >= 1 ==> h >= 2 && w >= 2,
            count == i * side,
            taps@ == heard_before(g, radius, row as int, col as int, count),
        decreases side - i,
    {
        let up = if i < kernel_radius { kernel_radius - i } else { 0 };
        let down = if i >= kernel_radius { i - kernel_radius } else { 0 };
        let mut j: usize = 0;
        while j < side
            invariant
                j <= side,
                i < side,
                side == scan_side(radius),
                radius == kernel_radius,
                up == if i < kernel_radius { (kernel_radius - i) as usize } else { 0usize },
                down == if i >= kernel_radius { (i - kernel_radius) as usize } else { 0usize },
                h == cells.len(),
                w == cells[row as int].len(),
                row < h,
                col < w,
                g == levels(cells),
                is_grid(g, w as nat),
                kernel_radius >= 1 ==> h >= 2 && w >= 2,
                count == i * side + j,
                taps@ == heard_before(g, radius, row as int, col as int, count),
            decreases side - j,
        {
            let left = if j < kernel_radius { kernel_radius - j } else { 0 };
            let right = if j >= kernel_radius { j - kernel_radius } else { 0 };
            let d = up + down + left + right;
            proof {
                lemma_fundamental_div_mod_converse(count as int, side as int, i as int, j as int);
                lemma_heard_grows(g, radius, row as int, col as int, count);
                assert(scan_offset(radius, count as int) == (i - kernel_radius, j - kernel_radius));
                assert(distance(scan_offset(radius, count as int)) == d);
            }
            if d != 0 && d <= kernel_radius {
                let y = wrapped(row, up, down, h);
                let x = wrapped(col, left, right, w);
                assert(g[y as int].len() == w);
                taps.push((d, cells[y][x]));
            }
            proof {
                count = count + 1;
            }
            j += 1;
        }
        proof {
            assert((i + 1) * side == i * side + side) by (nonlinear_arith);
        }
        i += 1;
    }
    proof {
        assert(i * side == scan_side(radius) * scan_side(radius));
    }
    taps
}

/// Applies a change to a level: the sum, held between zero and `FULL`.
pub fn next_level(current: u32, change: i64) -> (level: u32)
    ensures
        level == changed_level(current, change),
        level <= FULL,
{
    let sum: i128 = current as i128 + change as i128;
    if sum < 0 {
        0
    } else if sum > FULL as i128 {
        FULL
    } else {
        sum as u32
    }
}

} // verus!
