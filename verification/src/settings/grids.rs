use vstd::prelude::*;

verus! {

/// A rectangular grid of cells.
#[derive(Clone, Copy, Debug, PartialEq, Eq, Structural)]
pub struct Grid {
    pub rows: usize,
    pub columns: usize,
}

} // verus!
