use vstd::prelude::*;
use crate::settings::tokens::{SymbolType, TokenSetIndex};
use crate::shapes::{Cell, Region};

verus! {

/// The reasoning behind a deduction.
#[derive(Debug, PartialEq, Eq)]
pub enum Category {
    /// In `region` the `symbols` can stand at `positions` only, and there
    /// are just as many positions as the symbols need.
    HiddenTuple { symbols: String, region: Region, positions: Vec<Cell> },
}

/// A step that a deduction allows.
#[derive(Clone, Copy, Debug, PartialEq, Eq, PartialOrd, Ord, Structural)]
pub enum Action {
    SetSymbol { tokenset: TokenSetIndex, cell: Cell, symbol: SymbolType },
    RemoveSymbolCandidate { tokenset: TokenSetIndex, cell: Cell, symbol: SymbolType },
}

/// A deduction: why it holds and what it allows.
#[derive(Debug, PartialEq, Eq)]
pub struct Deduction {
    pub category: Category,
    pub actions: Vec<Action>,
}

/// A deduction as plain values.
pub struct DeductionView {
    pub symbols: Seq<char>,
    pub region: Seq<Cell>,
    pub positions: Seq<Cell>,
    pub actions: Seq<Action>,
}

impl View for Deduction {
    type V = DeductionView;

    open spec fn view(&self) -> DeductionView {
        match self.category {
            Category::HiddenTuple { symbols, region, positions } => DeductionView {
                symbols: symbols@,
                region: region@,
                positions: positions@,
                actions: self.actions@,
            },
        }
    }
}

/// The deductions of a list, each as plain values.
pub open spec fn deduction_views(deductions: Seq<Deduction>) -> Seq<DeductionView> {
    Seq::new(deductions.len(), |i: int| deductions[i]@)
}

/// Why a strategy gives up.
#[derive(Clone, Copy, Debug, PartialEq, Eq, Structural)]
pub enum SolvingError {
    /// Some symbols of a region have fewer cells left than they need.
    NotEnoughCandidates,
}

impl SolvingError {
    /// The error in words.
    pub fn message(&self) -> (text: &'static str)
        ensures
            text@ == "Not enough candidates"@,
    {
        "Not enough candidates"
    }
}

} // verus!
