//! The exact-cover engine: cells, circular lists, cursors, the sparse matrix
//! and the counting search.

pub mod cells;
pub mod links;
pub mod cursors;
pub mod rings;
pub mod matrix;
pub mod growth;
pub mod covering;
pub mod counting;
pub mod solvers;
pub mod exact;
pub mod problem;
pub mod soundness;
pub mod theorems;
pub mod display;
