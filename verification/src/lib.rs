//! An incremental Conway's Game of Life engine.
//!
//! The grid is a flat, row-major buffer of booleans with fixed dimensions and
//! hard edges (no wraparound). Each generation is advanced by a stepper that
//! re-evaluates only the cells marked in a dirty mask — the cells adjacent to
//! a cell that changed state in the previous generation — instead of scanning
//! the whole grid, so the per-step cost is proportional to the active
//! frontier. The stepper is proved to produce exactly the same grid as a full
//! brute-force recomputation.

pub mod grid;
pub mod rules;
pub mod step;
pub mod laws;
pub mod life;
