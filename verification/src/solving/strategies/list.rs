//! The strategies that the solver knows.

pub mod hidden_tuples;

pub use hidden_tuples::HiddenTuples;
