use vstd::prelude::*;
use crate::settings::constraints::types::{Constraint, ConstraintView, SettingError, views};
use crate::shapes::{Cell, Region};
use crate::states::base::State;
use crate::states::tokensets::{CellState, CellStateView, Tokenset, cell_fits, state_at};

verus! {

/// How a state stands to its constraints.
#[derive(Clone, Copy, Debug, PartialEq, Eq, Structural)]
pub enum Status {
    /// Every constraint is met.
    Valid,
    /// No constraint is broken, but not every one is met yet.
    Ongoing,
    /// Some constraint is broken.
    Invalid,
}

/// Every constraint of the list names a set of tokens that the state has,
/// and cells on its grid only.
pub open spec fn all_fit(state: Seq<Seq<Seq<CellStateView>>>, constraints: Seq<ConstraintView>) -> bool {
    forall|i: int| 0 <= i < constraints.len() ==> constraint_fits(state, #[trigger] constraints[i])
}

/// The constraint names a set of tokens that the state has, and cells on its
/// grid only.
pub open spec fn constraint_fits(state: Seq<Seq<Seq<CellStateView>>>, constraint: ConstraintView) -> bool {
    match constraint {
        ConstraintView::GivenSymbol { tokenset, cell, .. } => tokenset < state.len() && cell_fits(
            state[tokenset as int],
            cell,
        ),
        ConstraintView::SymbolRepartition { tokenset, region, .. } => tokenset < state.len() && region_fits(
            state[tokenset as int],
            region,
        ),
    }
}

/// Every cell of the region lies on the grid.
pub open spec fn region_fits(grid: Seq<Seq<CellStateView>>, region: Seq<Cell>) -> bool {
    forall|k: int| 0 <= k < region.len() ==> cell_fits(grid, #[trigger] region[k])
}

/// How a cell stands to the symbol that it is given: met if it holds the
/// symbol, broken if it holds another, open if it holds none.
pub open spec fn given_status(grid: Seq<Seq<CellStateView>>, cell: Cell, symbol: char) -> Status {
    match state_at(grid, cell) {
        CellStateView::Fixed(value) => if value == symbol {
            Status::Valid
        } else {
            Status::Invalid
        },
        _ => Status::Ongoing,
    }
}

/// The number of cells of the region that hold `symbol`.
pub open spec fn occurrences(grid: Seq<Seq<CellStateView>>, region: Seq<Cell>, symbol: char) -> nat
    decreases region.len(),
{
    if region.len() == 0 {
        0
    } else {
        occurrences(grid, region.drop_last(), symbol) + (if state_at(grid, region.last())
            == CellStateView::Fixed(symbol) {
            1nat
        } else {
            0nat
        })
    }
}

/// Some symbol stands more often in the region than its share allows.
pub open spec fn exceeds(
    grid: Seq<Seq<CellStateView>>,
    region: Seq<Cell>,
    repartition: Seq<(char, usize)>,
    n: int,
) -> bool {
    exists|k: int| 0 <= k < n && occurrences(grid, region, (#[trigger] repartition[k]).0) > repartition[k].1
}

/// Some symbol stands less often in the region than its share asks.
pub open spec fn lacks(
    grid: Seq<Seq<CellStateView>>,
    region: Seq<Cell>,
    repartition: Seq<(char, usize)>,
    n: int,
) -> bool {
    exists|k: int| 0 <= k < n && occurrences(grid, region, (#[trigger] repartition[k]).0) < repartition[k].1
}

/// How a region stands to the shares of its symbols: broken if some symbol
/// stands too often, else open if some symbol is still missing, else met.
pub open spec fn repartition_status(
    grid: Seq<Seq<CellStateView>>,
    region: Seq<Cell>,
    repartition: Seq<(char, usize)>,
) -> Status {
    if exceeds(grid, region, repartition, repartition.len() as int) {
        Status::Invalid
    } else if lacks(grid, region, repartition, repartition.len() as int) {
        Status::Ongoing
    } else {
        Status::Valid
    }
}

/// How the state stands to one constraint.
pub open spec fn status_of(state: Seq<Seq<Seq<CellStateView>>>, constraint: ConstraintView) -> Status {
    match constraint {
        ConstraintView::GivenSymbol { tokenset, cell, symbol } => given_status(
            state[tokenset as int],
            cell,
            symbol,
        ),
        ConstraintView::SymbolRepartition { tokenset, region, repartition } => repartition_status(
            state[tokenset as int],
            region,
            repartition,
        ),
    }
}

/// One of the first `n` constraints stands at `status`.
pub open spec fn some_at(
    state: Seq<Seq<Seq<CellStateView>>>,
    constraints: Seq<ConstraintView>,
    n: int,
    status: Status,
) -> bool {
    exists|i: int| 0 <= i < n && status_of(state, #[trigger] constraints[i]) == status
}

/// How the state stands to all the constraints: broken if one is broken,
/// else open if one is open, else met.
pub open spec fn overall(state: Seq<Seq<Seq<CellStateView>>>, constraints: Seq<ConstraintView>) -> Status {
    if some_at(state, constraints, constraints.len() as int, Status::Invalid) {
        Status::Invalid
    } else if some_at(state, constraints, constraints.len() as int, Status::Ongoing) {
        Status::Ongoing
    } else {
        Status::Valid
    }
}

/// Says how the state stands to the constraints. It never fails.
#[verifier::rlimit(50)]
pub fn compute_status(state: &State, constraints: &[Constraint]) -> (result: Result<Status, SettingError>)
    requires
        all_fit(state@, views(constraints@)),
    ensures
        result == Ok::<Status, SettingError>(overall(state@, views(constraints@))),
{
    let ghost list = views(constraints@);
    let mut complete = true;
    let mut n: usize = 0;
    while n < constraints.len()
        invariant
            n <= constraints@.len(),
            list == views(constraints@),
            all_fit(state@, list),
            !some_at(state@, list, n as int, Status::Invalid),
            complete == !some_at(state@, list, n as int, Status::Ongoing),
        decreases constraints@.len() - n,
    {
        assert(list[n as int] == constraints@[n as int]@);
        assert(constraint_fits(state@, list[n as int]));
        let status = match &constraints[n] {
            Constraint::GivenSymbol { tokenset, cell, symbol } => check_given_symbol(
                state,
                *tokenset,
                cell,
                *symbol,
            ),
            Constraint::SymbolRepartition { tokenset, region, repartition } => check_symbol_repartition(
                state,
                *tokenset,
                region,
                repartition,
            ),
        };
        assert(status == status_of(state@, list[n as int]));
        match status {
            Status::Ongoing => {
                complete = false;
            },
            Status::Invalid => {
                return Ok(Status::Invalid);
            },
            Status::Valid => (),
        }
        n += 1;
    }
    Ok(if complete {
        Status::Valid
    } else {
        Status::Ongoing
    })
}

fn check_given_symbol(state: &State, tokenset: usize, cell: &Cell, symbol: char) -> (status: Status)
    requires
        tokenset < state@.len(),
        cell_fits(state@[tokenset as int], *cell),
    ensures
        status == given_status(state@[tokenset as int], *cell, symbol),
{
    match &state.tokensets[tokenset] {
        Tokenset::Symbols(cells) => {
            let cell_state = &cells[cell.1 as usize][cell.0 as usize];
            match cell_state {
                CellState::Fixed(value) => {
                    if *value == symbol {
                        Status::Valid
                    } else {
                        Status::Invalid
                    }
                },
                _ => Status::Ongoing,
            }
        },
    }
}

/// Counts the cells of the region that hold `symbol`.
pub fn count_symbol(cells: &Vec<Vec<CellState>>, region: &Region, symbol: char) -> (count: usize)
    requires
        region_fits(crate::states::tokensets::grid_view(cells@), region@),
    ensures
        count == occurrences(crate::states::tokensets::grid_view(cells@), region@, symbol),
{
    let ghost grid = crate::states::tokensets::grid_view(cells@);
    let mut count: usize = 0;
    let mut k: usize = 0;
    assert(region@.take(0) =~= Seq::<Cell>::empty());
    while k < region.cells.len()
        invariant
            k <= region@.len(),
            grid == crate::states::tokensets::grid_view(cells@),
            region_fits(grid, region@),
            count == occurrences(grid, region@.take(k as int), symbol),
            count <= k,
        decreases region@.len() - k,
    {
        let cell = &region.cells[k];
        assert(cell_fits(grid, region@[k as int]));
        assert(region@.take(k + 1).drop_last() =~= region@.take(k as int));
        if let CellState::Fixed(value) = &cells[cell.1 as usize][cell.0 as usize] {
            if *value == symbol {
                count += 1;
            }
        }
        k += 1;
    }
    assert(region@.take(k as int) =~= region@);
    count
}

#[verifier::rlimit(50)]
fn check_symbol_repartition(
    state: &State,
    tokenset: usize,
    region: &Region,
    repartition: &Vec<(char, usize)>,
) -> (status: Status)
    requires
        tokenset < state@.len(),
        region_fits(state@[tokenset as int], region@),
    ensures
        status == repartition_status(state@[tokenset as int], region@, repartition@),
{
    match &state.tokensets[tokenset] {
        Tokenset::Symbols(cells) => {
            let ghost grid = state@[tokenset as int];
            let mut completed = true;
            let mut k: usize = 0;
            while k < repartition.len()
                invariant
                    k <= repartition@.len(),
                    tokenset < state@.len(),
                    grid == state@[tokenset as int],
                    grid == crate::states::tokensets::grid_view(cells@),
                    region_fits(grid, region@),
                    !exceeds(grid, region@, repartition@, k as int),
                    completed == !lacks(grid, region@, repartition@, k as int),
                decreases repartition@.len() - k,
            {
                let symbol = repartition[k].0;
                let expected_count = repartition[k].1;
                let count = count_symbol(cells, region, symbol);
                if count > expected_count {
                    assert(occurrences(grid, region@, repartition@[k as int].0) > repartition@[k as int].1);
                    assert(exceeds(grid, region@, repartition@, repartition@.len() as int));
                    return Status::Invalid;
                }
                if count < expected_count {
                    completed = false;
                }
                k += 1;
            }
            if completed {
                Status::Valid
            } else {
                Status::Ongoing
            }
        },
    }
}

} // verus!
