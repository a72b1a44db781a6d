use vstd::prelude::*;

verus! {

/// What goes into a cell.
pub type SymbolType = char;

/// The place of a grid among the grids of a puzzle.
pub type GridIndex = usize;

/// The place of a set of tokens among those of a puzzle.
pub type TokenSetIndex = usize;

/// Something that is placed on a grid: symbols, one per cell, each taken
/// from `candidates`.
#[derive(Debug)]
pub enum TokenSet {
    Symbols { grid: GridIndex, candidates: Vec<SymbolType> },
}

impl TokenSet {
    /// The grid that the tokens are placed on.
    pub open spec fn grid(&self) -> GridIndex {
        match *self {
            TokenSet::Symbols { grid, .. } => grid,
        }
    }

    /// The symbols that a cell may hold.
    pub open spec fn candidates(&self) -> Seq<char> {
        match *self {
            TokenSet::Symbols { candidates, .. } => candidates@,
        }
    }
}

} // verus!
