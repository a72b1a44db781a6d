use vstd::prelude::*;
use crate::settings::constraints::types::{Constraint, ConstraintView, views};
use crate::shapes::Cell;
use crate::states::base::State;
use crate::states::tokensets::{CellState, CellStateView, Tokenset, cell_fits, grid_view, line_view};

verus! {

/// Every given of the list names a set of tokens that the state has and a
/// cell on its grid.
pub open spec fn givens_fit(state: Seq<Seq<Seq<CellStateView>>>, constraints: Seq<ConstraintView>) -> bool {
    forall|i: int|
        0 <= i < constraints.len() ==> match #[trigger] constraints[i] {
            ConstraintView::GivenSymbol { tokenset, cell, .. } => tokenset < state.len() && cell_fits(
                state[tokenset as int],
                cell,
            ),
            ConstraintView::SymbolRepartition { .. } => true,
        }
}

/// The state with `symbol` set at `cell` of the grid of `tokenset`.
pub open spec fn with_symbol(
    state: Seq<Seq<Seq<CellStateView>>>,
    tokenset: int,
    cell: Cell,
    symbol: char,
) -> Seq<Seq<Seq<CellStateView>>> {
    state.update(
        tokenset,
        state[tokenset].update(
            cell.1 as int,
            state[tokenset][cell.1 as int].update(cell.0 as int, CellStateView::Fixed(symbol)),
        ),
    )
}

/// The state after the givens among the first `n` constraints were set, in
/// the order of the list.
pub open spec fn with_givens(
    state: Seq<Seq<Seq<CellStateView>>>,
    constraints: Seq<ConstraintView>,
    n: int,
) -> Seq<Seq<Seq<CellStateView>>>
    decreases n,
{
    if n <= 0 {
        state
    } else {
        let before = with_givens(state, constraints, n - 1);
        match constraints[n - 1] {
            ConstraintView::GivenSymbol { tokenset, cell, symbol } => with_symbol(
                before,
                tokenset as int,
                cell,
                symbol,
            ),
            ConstraintView::SymbolRepartition { .. } => before,
        }
    }
}

/// Two states have grids of the same size.
pub open spec fn same_shape(a: Seq<Seq<Seq<CellStateView>>>, b: Seq<Seq<Seq<CellStateView>>>) -> bool {
    &&& a.len() == b.len()
    &&& forall|t: int| 0 <= t < a.len() ==> (#[trigger] a[t]).len() == b[t].len()
    &&& forall|t: int, y: int|
        0 <= t < a.len() && 0 <= y < a[t].len() ==> (#[trigger] a[t][y]).len() == b[t][y].len()
}

/// Sets the givens of the list in the state, in the order of the list. The
/// other constraints change nothing.
#[verifier::rlimit(50)]
pub fn apply_constraints(state: &mut State, constraints: &[Constraint])
    requires
        givens_fit(old(state)@, views(constraints@)),
    ensures
        final(state)@ == with_givens(old(state)@, views(constraints@), constraints@.len() as int),
        same_shape(final(state)@, old(state)@),
{
    let mut n: usize = 0;
    while n < constraints.len()
        invariant
            n <= constraints@.len(),
            givens_fit(old(state)@, views(constraints@)),
            same_shape(state@, old(state)@),
            state@ == with_givens(old(state)@, views(constraints@), n as int),
        decreases constraints@.len() - n,
    {
        let ghost view = views(constraints@)[n as int];
        assert(view == constraints@[n as int]@);
        if let Constraint::GivenSymbol { tokenset, cell, symbol } = &constraints[n] {
            apply_given_symbol(state, *tokenset, cell, *symbol);
        }
        n += 1;
    }
}

fn apply_given_symbol(state: &mut State, tokenset: usize, cell: &Cell, symbol: char)
    requires
        tokenset < old(state)@.len(),
        cell_fits(old(state)@[tokenset as int], *cell),
    ensures
        final(state)@ == with_symbol(old(state)@, tokenset as int, *cell, symbol),
        same_shape(final(state)@, old(state)@),
{
    let ghost before = state@;
    match &mut state.tokensets[tokenset] {
        Tokenset::Symbols(cells) => {
            cells[cell.1 as usize][cell.0 as usize] = CellState::Fixed(symbol);
        },
    }
    assert(state@ =~~= with_symbol(before, tokenset as int, *cell, symbol));
}

} // verus!
