//! Conway's Game of Life on a fixed-size grid.
//!
//! A `World` owns one `Cell` per coordinate, resolves each cell's at most
//! eight neighbours once at construction, and advances generations with a
//! two-phase (decide, then commit) update so that every cell's next state is
//! computed from a consistent snapshot of the previous generation.

pub mod cell;
pub mod world;
