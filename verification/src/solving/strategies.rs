//! Deductions of the kind a human solver makes, and the strategies that
//! find them.

pub mod deductions;
pub mod interface;
pub mod list;
pub mod solvers;

pub use deductions::Action;
pub use deductions::Category;
pub use deductions::Deduction;
pub use deductions::SolvingError;
pub use interface::Strategy;
pub use solvers::Solver;
