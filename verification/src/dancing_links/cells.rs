use vstd::prelude::*;

verus! {

/// Index of one slot in the arena. Slots are only ever appended, so an index
/// stays meaningful for as long as the arena lives.
#[derive(Clone, Copy, Debug, PartialEq, Eq, Structural)]
pub struct Cell(pub usize);

} // verus!
