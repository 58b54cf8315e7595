//! A cellular automaton on a two-dimensional grid whose edges wrap around.
//!
//! The grid holds one intensity per cell, between zero and one, kept as a
//! fixed-point level (see [`grid::FULL`]). An engine ([`engine::Lenia`]) runs
//! one of two rules on it: the discrete rule of Conway's Life, with a set of
//! active cells that spares it the quiet parts of the grid, or the continuous
//! rule of Lenia, for which this crate does the integer part: which cells a
//! cell listens to, at what distance, and how a change is applied.

pub mod grid;
pub mod kernel;
pub mod life;
pub mod random;
pub mod active;
pub mod control;
pub mod engine;

pub use control::{AppState, Command, PointerButton};
pub use engine::{Lenia, LeniaView, Mode, ResourceExhausted, DEFAULT_KERNEL_RADIUS};
pub use random::generate_spawn_area;
pub use grid::FULL;
