//! Ready-made settings.

pub mod common;
pub mod sudoku;

pub use common::givens;
