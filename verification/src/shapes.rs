//! Positions on a grid and the regions that puzzle rules speak of.

pub mod cells;
pub mod regions;

pub use cells::Cell;
pub use cells::DirectionGenerator;
pub use regions::Region;
