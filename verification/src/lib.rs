//! Constraint-propagation solver for the classic 9x9 number-placement puzzle.
//!
//! The grid is a row-major array of 81 optional values. [`Indices`] holds the
//! fixed geometry of rows, columns and subsquares, [`Possibles`] tracks which
//! values each empty cell may still take, and [`Solver`] applies the deduction
//! rules until nothing changes any more.
use vstd::prelude::*;

pub mod data;
pub mod indices;
pub mod laws;
pub mod listing;
pub mod possibles;
pub mod solver;
pub mod state;
pub mod utils;

pub use crate::indices::Indices;
pub use crate::possibles::Possibles;
pub use crate::solver::{PassReport, Solver, Status};

verus! {

/// Position of a cell in the grid, row-major, in `0..81`.
pub type Index = usize;

/// A value placed in a cell; the puzzle uses `1..=9`.
pub type Value = u8;

/// One cell of the grid: a placed value, or nothing yet.
pub type DataCell = Option<Value>;

/// The whole grid.
pub type Data = [DataCell; 81];

/// The row, the column and the subsquare that a cell lies in, each in `0..9`.
#[derive(Debug)]
pub struct Position {
    pub row: Index,
    pub column: Index,
    pub subsquare: Index,
}

} // verus!
