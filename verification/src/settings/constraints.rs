//! The constraints that the rules of a puzzle come down to.

pub mod listing;
pub mod types;

pub use listing::list_constraints;
pub use types::Constraint;
pub use types::ConstraintView;
pub use types::SettingError;
pub use types::SymbolRepartition;
