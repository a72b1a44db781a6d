//! What a puzzle is made of: its grids, the symbols that go into them, and
//! the rules, which are spelled out as constraints on regions and cells.

pub mod constraints;
pub mod grids;
pub mod presets;
pub mod puzzle_settings;
pub mod rules;
pub mod tokens;

pub use constraints::list_constraints;
pub use constraints::Constraint;
pub use constraints::SettingError;
pub use constraints::SymbolRepartition;
pub use grids::Grid;
pub use puzzle_settings::PuzzleSetting;
pub use rules::GivenSymbol;
pub use rules::Rule;
pub use tokens::GridIndex;
pub use tokens::SymbolType;
pub use tokens::TokenSet;
pub use tokens::TokenSetIndex;
