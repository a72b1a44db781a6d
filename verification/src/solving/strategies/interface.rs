use vstd::prelude::*;
use crate::settings::constraints::types::{Constraint, views};
use crate::solving::strategies::deductions::{Deduction, SolvingError};
use crate::states::base::State;
use crate::states::status::all_fit;

verus! {

/// A way to look for deductions in a state.
pub trait Strategy {
    /// What the strategy asks of the state, beyond that the constraints
    /// speak of cells on its grids.
    spec fn ready(&self, constraints: &[Constraint], state: &State) -> bool;

    /// The deductions that the strategy finds, or the reason why the state
    /// cannot be solved.
    fn search(&self, constraints: &[Constraint], state: &State) -> (result: Result<Vec<Deduction>, SolvingError>)
        requires
            all_fit(state@, views(constraints@)),
            self.ready(constraints, state),
    ;
}

} // verus!
