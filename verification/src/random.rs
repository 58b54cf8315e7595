//! Random draws, taken from the `fastrand` crate, and what the engine makes of
//! them.

use vstd::prelude::*;
use crate::engine::Mode;
use crate::grid::FULL;

verus! {

/// Calls `fastrand::usize` on the range from `low` to `high`, both included.
/// The generator adds to `low` a number below the length of the range, so what
/// comes back lies in the range; which number it is depends on the generator's
/// state, and two calls may differ. It panics on an empty range, which
/// `low <= high` rules out.
#[verifier::external_body]
pub(crate) fn random_between(low: usize, high: usize) -> (n: usize)
    requires
        low <= high,
    ensures
        low <= n <= high,
{
    fastrand::usize(low..=high)
}

/// Whether `level` is one that seeding under `mode` can give a cell: any
/// level short of `FULL` under the continuous rule, zero or `FULL` under the
/// discrete one.
pub open spec fn seeded(mode: Mode, level: u32) -> bool {
    match mode {
        Mode::Lenia => level < FULL,
        Mode::GameOfLife => level == 0 || level == FULL,
    }
}

/// The largest draw that seeding under `mode` asks for.
pub open spec fn draw_limit(mode: Mode) -> int {
    match mode {
        Mode::Lenia => FULL - 1,
        Mode::GameOfLife => 1,
    }
}

/// The level that a draw stands for: under the continuous rule the draw
/// itself, under the discrete rule zero for 0 and `FULL` for 1.
pub fn level_of_draw(mode: Mode, draw: usize) -> (level: u32)
    requires
        draw <= draw_limit(mode),
    ensures
        level == match mode {
            Mode::Lenia => draw as int,
            Mode::GameOfLife => draw * FULL,
        },
        seeded(mode, level),
{
    match mode {
        Mode::Lenia => draw as u32,
        Mode::GameOfLife => if draw == 0 {
            0
        } else {
            FULL
        },
    }
}

/// A fresh random level for a cell seeded under `mode`: uniform over the
/// levels short of `FULL` under the continuous rule, zero or `FULL` with even
/// odds under the discrete one.
pub fn random_level(mode: Mode) -> (level: u32)
    ensures
        seeded(mode, level),
{
    let draw = match mode {
        Mode::Lenia => random_between(0, (FULL - 1) as usize),
        Mode::GameOfLife => random_between(0, 1),
    };
    level_of_draw(mode, draw)
}

/// The span that two draws give on an axis of `count` places: it begins at
/// the place `min` and ends `extra` places further on. There is one only
/// where `min` is a place of the axis and `extra` is at least one step and
/// stays on the axis.
pub open spec fn spanned(count: usize, min: usize, extra: usize) -> Option<(usize, usize)> {
    if min < count && 1 <= extra < count - min {
        Some((min, (min + extra) as usize))
    } else {
        None
    }
}

/// The span that the draws `min` and `extra` give on an axis of `count`
/// places, as (first place, last place), or `None` where they give none.
pub fn span_of_draws(count: usize, min: usize, extra: usize) -> (span: Option<(usize, usize)>)
    ensures
        span == spanned(count, min, extra),
{
    if min < count && 1 <= extra && extra < count - min {
        Some((min, min + extra))
    } else {
        None
    }
}

/// A random span of places `(min, max)` with `min < max < count`: `min` is
/// drawn among all places, `max` among those after it. When the draw for
/// `min` falls on the last place there is no place left for `max`, and the
/// result is `None`; with fewer than two places it always is.
fn random_span(count: usize) -> (span: Option<(usize, usize)>)
    ensures
        span matches Some((min, max)) ==> min < max < count,
        count < 2 ==> span is None,
{
    if count == 0 {
        return None;
    }
    let min = random_between(0, count - 1);
    if count - min < 2 {
        return None;
    }
    let extra = random_between(1, count - min - 1);
    span_of_draws(count, min, extra)
}

/// A random area of a grid of `wcell_count` columns and `hcell_count` rows, as
/// ((first column, last column), (first row, last row)): on each axis a span
/// drawn as `random_span` draws it. The result is `None` when either span is.
pub fn generate_spawn_area(wcell_count: usize, hcell_count: usize) -> (area: Option<
    ((usize, usize), (usize, usize)),
>)
    ensures
        area matches Some(((w_min, w_max), (h_min, h_max))) ==> w_min < w_max < wcell_count && h_min
            < h_max < hcell_count,
        wcell_count < 2 || hcell_count < 2 ==> area is None,
{
    match random_span(wcell_count) {
        None => None,
        Some(columns) => match random_span(hcell_count) {
            None => None,
            Some(rows) => Some((columns, rows)),
        },
    }
}

} // verus!
