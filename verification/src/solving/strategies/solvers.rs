use vstd::prelude::*;
use crate::settings::constraints::types::{Constraint, views};
use crate::solving::strategies::deductions::{Deduction, DeductionView, SolvingError, deduction_views};
use crate::solving::strategies::interface::Strategy;
use crate::solving::strategies::list::hidden_tuples::{HiddenTuples, all_shares_fit, found_for};
use crate::states::base::State;
use crate::states::status::all_fit;
use crate::states::tokensets::CellStateView;
use crate::settings::constraints::types::ConstraintView;

verus! {

/// Tries its strategies one after the other and stops at the first that
/// finds something.
pub struct Solver {
    strategies: Vec<HiddenTuples>,
}

/// What the strategies from `i` on find: the deductions of the first that
/// finds any, none if none does, and the failure of a strategy that gives
/// up before any has found something.
pub open spec fn first_found(
    strategies: Seq<HiddenTuples>,
    state: Seq<Seq<Seq<CellStateView>>>,
    constraints: Seq<ConstraintView>,
    i: int,
) -> Result<Seq<DeductionView>, SolvingError>
    decreases strategies.len() - i,
{
    if i < 0 || i >= strategies.len() {
        Ok(Seq::empty())
    } else {
        match found_for(
            strategies[i].min_size(),
            strategies[i].max_size(),
            state,
            constraints,
            constraints.len() as int,
        ) {
            Err(e) => Err(e),
            Ok(found) => if found.len() > 0 {
                Ok(found)
            } else {
                first_found(strategies, state, constraints, i + 1)
            },
        }
    }
}

impl Default for Solver {
    /// Hidden singles, pairs and triples, then every larger hidden group.
    fn default() -> (solver: Solver)
        ensures
            solver.strategies().len() == 4,
            forall|i: int|
                0 <= i < 3 ==> (#[trigger] solver.strategies()[i]).min_size() == i + 1
                    && solver.strategies()[i].max_size() == Some((i + 1) as usize),
            solver.strategies()[3].min_size() == 4,
            solver.strategies()[3].max_size() == None::<usize>,
    {
        let mut strategies: Vec<HiddenTuples> = Vec::new();
        strategies.push(HiddenTuples::with_fixed_size(1));
        strategies.push(HiddenTuples::with_fixed_size(2));
        strategies.push(HiddenTuples::with_fixed_size(3));
        strategies.push(HiddenTuples::with_min_size(4));
        Solver { strategies }
    }
}

impl Solver {
    /// The strategies in the order in which they are tried.
    pub closed spec fn strategies(&self) -> Seq<HiddenTuples> {
        self.strategies@
    }

    /// The deductions of the first strategy that finds any.
    pub fn iterate(&self, constraints: &Vec<Constraint>, state: &State) -> (result: Result<
        Vec<Deduction>,
        SolvingError,
    >)
        requires
            all_fit(state@, views(constraints@)),
            all_shares_fit(state@, views(constraints@)),
        ensures
            match result {
                Ok(deductions) => first_found(self.strategies(), state@, views(constraints@), 0) == Ok::<
                    Seq<DeductionView>,
                    SolvingError,
                >(deduction_views(deductions@)),
                Err(e) => first_found(self.strategies(), state@, views(constraints@), 0) == Err::<
                    Seq<DeductionView>,
                    SolvingError,
                >(e),
            },
    {
        let mut i: usize = 0;
        while i < self.strategies.len()
            invariant
                i <= self.strategies@.len(),
                all_fit(state@, views(constraints@)),
                all_shares_fit(state@, views(constraints@)),
                first_found(self.strategies@, state@, views(constraints@), 0) == first_found(
                    self.strategies@,
                    state@,
                    views(constraints@),
                    i as int,
                ),
            decreases self.strategies@.len() - i,
        {
            let strategy = &self.strategies[i];
            match strategy.search(constraints.as_slice(), state) {
                Err(e) => {
                    return Err(e);
                },
                Ok(deductions) => {
                    if !deductions.is_empty() {
                        return Ok(deductions);
                    }
                },
            }
            i += 1;
        }
        let none: Vec<Deduction> = Vec::new();
        assert(deduction_views(none@) =~= Seq::empty());
        return Ok(none);
    }
}

} // verus!
