use vstd::prelude::*;
use crate::settings::tokens::{SymbolType, TokenSetIndex};
use crate::shapes::{Cell, Region};

verus! {

/// How often each symbol stands in a region: pairs of a symbol and its
/// number, no symbol named twice.
pub type SymbolRepartition = Vec<(SymbolType, usize)>;

/// What a state of the puzzle has to meet.
#[derive(Clone, Debug, PartialEq, Eq)]
pub enum Constraint {
    /// In `region`, each symbol stands as often as `repartition` says.
    SymbolRepartition { tokenset: TokenSetIndex, repartition: SymbolRepartition, region: Region },
    /// `cell` holds `symbol`.
    GivenSymbol { tokenset: TokenSetIndex, cell: Cell, symbol: SymbolType },
}

/// A constraint as plain values.
pub enum ConstraintView {
    SymbolRepartition { tokenset: TokenSetIndex, repartition: Seq<(char, usize)>, region: Seq<Cell> },
    GivenSymbol { tokenset: TokenSetIndex, cell: Cell, symbol: char },
}

impl View for Constraint {
    type V = ConstraintView;

    open spec fn view(&self) -> ConstraintView {
        match *self {
            Constraint::SymbolRepartition { tokenset, repartition, region } => ConstraintView::SymbolRepartition {
                tokenset,
                repartition: repartition@,
                region: region@,
            },
            Constraint::GivenSymbol { tokenset, cell, symbol } => ConstraintView::GivenSymbol {
                tokenset,
                cell,
                symbol,
            },
        }
    }
}

/// Why the rules of a puzzle cannot be spelled out.
#[derive(Clone, Copy, Debug, PartialEq, Eq, Structural)]
pub enum SettingError {
    /// A rule names a set of tokens that the puzzle does not have.
    TokensetOutOfRange,
    /// A set of tokens names a grid that the puzzle does not have.
    GridOutOfRange,
}

impl SettingError {
    /// The error in words.
    pub fn message(&self) -> (text: &'static str)
        ensures
            text@ == (match *self {
                SettingError::TokensetOutOfRange => "tokenset index out of range"@,
                SettingError::GridOutOfRange => "grid index out of range"@,
            }),
    {
        match self {
            SettingError::TokensetOutOfRange => "tokenset index out of range",
            SettingError::GridOutOfRange => "grid index out of range",
        }
    }
}

/// The constraints of a list, each as plain values.
pub open spec fn views(constraints: Seq<Constraint>) -> Seq<ConstraintView> {
    Seq::new(constraints.len(), |i: int| constraints[i]@)
}

} // verus!
