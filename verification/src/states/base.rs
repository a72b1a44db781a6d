use vstd::prelude::*;
use crate::states::tokensets::{CellStateView, Tokenset};

verus! {

/// The state of a puzzle: for each set of tokens, what its grid holds.
#[derive(Clone, Debug, PartialEq, Eq)]
pub struct State {
    pub tokensets: Vec<Tokenset>,
}

impl View for State {
    type V = Seq<Seq<Seq<CellStateView>>>;

    open spec fn view(&self) -> Seq<Seq<Seq<CellStateView>>> {
        Seq::new(self.tokensets@.len(), |t: int| self.tokensets@[t]@)
    }
}

} // verus!
