//! The state of a puzzle while it is played or solved: what each cell holds.

pub mod apply_constraints;
pub mod base;
pub mod initialization;
pub mod status;
pub mod tokensets;

pub use apply_constraints::apply_constraints;
pub use base::State;
pub use initialization::initialize;
pub use initialization::Purpose;
pub use status::compute_status;
pub use status::Status;
pub use tokensets::symbolset;
pub use tokensets::CellGrid;
pub use tokensets::CellState;
pub use tokensets::CellStateView;
pub use tokensets::Tokenset;
