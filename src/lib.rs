//! Enumeration of the completions of a 4×4 grid split in 2×2 blocks, in which
//! no digit repeats within a row, a column or a block: a resumable
//! backtracking search that hands out one solution per call, in increasing
//! order.

pub mod digit;
pub mod grid;
pub mod model;
pub mod search;
pub mod laws;
pub mod render;

pub use digit::{Cell, Digit, Next, BLOCK_SIDE, NB_CELL, NB_DIGIT};
pub use grid::{times, Grid};
pub use search::{GridSolver, PartialySolvedGrid, SolvedGrid};
