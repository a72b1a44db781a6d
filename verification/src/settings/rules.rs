use vstd::prelude::*;
use crate::settings::tokens::{SymbolType, TokenSetIndex};
use crate::shapes::{Cell, Region};

verus! {

/// A symbol that the puzzle shows from the start.
#[derive(Clone, Copy, Debug, PartialEq, Eq, Structural)]
pub struct GivenSymbol {
    pub symbol: SymbolType,
    pub cell: Cell,
}

/// A rule of the puzzle.
#[derive(Debug)]
pub enum Rule {
    /// Each candidate symbol of `tokenset` stands once in every row, every
    /// column and every one of `regions`, and the `givens` stand where they
    /// are shown.
    Sudoku { tokenset: TokenSetIndex, regions: Vec<Region>, givens: Vec<GivenSymbol> },
}

impl Rule {
    /// The set of tokens that the rule is about.
    pub open spec fn tokenset(&self) -> TokenSetIndex {
        match *self {
            Rule::Sudoku { tokenset, .. } => tokenset,
        }
    }

    /// The regions that the rule names, each as its cells.
    pub open spec fn regions(&self) -> Seq<Seq<Cell>> {
        match *self {
            Rule::Sudoku { regions, .. } => Seq::new(regions@.len(), |i: int| regions@[i]@),
        }
    }

    /// The symbols that the rule shows from the start.
    pub open spec fn givens(&self) -> Seq<GivenSymbol> {
        match *self {
            Rule::Sudoku { givens, .. } => givens@,
        }
    }
}

} // verus!
