//! Solving a puzzle by narrowing down what its cells may hold.

pub mod apply_constraints;
pub mod initialization;
pub mod solution_count;
pub mod strategies;
pub mod symbol_positions;

pub use apply_constraints::apply_constraints;
pub use initialization::initialize;
pub use solution_count::count_solutions;
pub use symbol_positions::symbol_positions;
