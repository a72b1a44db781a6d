use vstd::prelude::*;
use crate::settings::constraints::types::{Constraint, ConstraintView, views};
use crate::settings::presets::common::symbol_at;
use crate::shapes::{Cell, Region};
use crate::states::apply_constraints::{same_shape, with_givens};
use crate::states::base::State;
use crate::states::status::{all_fit, constraint_fits, count_symbol, occurrences, region_fits};
use crate::states::tokensets::{CellState, CellStateView, Tokenset, cell_fits, grid_view, line_view, state_at};

verus! {

/// The symbols among the first `n` of the repartition that stand in the
/// region as often as they may.
pub open spec fn settled(
    grid: Seq<Seq<CellStateView>>,
    region: Seq<Cell>,
    repartition: Seq<(char, usize)>,
    n: int,
) -> Seq<char>
    decreases n,
{
    if n <= 0 {
        Seq::empty()
    } else {
        let front = settled(grid, region, repartition, n - 1);
        if occurrences(grid, region, repartition[n - 1].0) == repartition[n - 1].1 {
            front.push(repartition[n - 1].0)
        } else {
            front
        }
    }
}

/// The first `n` of `symbols` without those that `removed` holds.
pub open spec fn without(symbols: Seq<char>, removed: Seq<char>, n: int) -> Seq<char>
    decreases n,
{
    if n <= 0 {
        Seq::empty()
    } else {
        let front = without(symbols, removed, n - 1);
        if removed.contains(symbol_at(symbols, n - 1)) {
            front
        } else {
            front.push(symbol_at(symbols, n - 1))
        }
    }
}

/// The cell with the symbols `removed` struck off its candidates.
pub open spec fn struck(cell: CellStateView, removed: Seq<char>) -> CellStateView {
    match cell {
        CellStateView::Candidates(candidates) => CellStateView::Candidates(
            without(candidates, removed, candidates.len() as int),
        ),
        other => other,
    }
}

/// The region holds the cell at column `x` of line `y`.
pub open spec fn reaches(region: Seq<Cell>, x: int, y: int) -> bool {
    exists|k: int| 0 <= k < region.len() && (#[trigger] region[k]).0 == x && region[k].1 == y
}

/// The grid with the symbols `removed` struck off the candidates of every
/// cell of the region.
pub open spec fn pruned(
    grid: Seq<Seq<CellStateView>>,
    region: Seq<Cell>,
    removed: Seq<char>,
) -> Seq<Seq<CellStateView>> {
    Seq::new(
        grid.len(),
        |y: int|
            Seq::new(
                grid[y].len(),
                |x: int|
                    if reaches(region, x, y) {
                        struck(grid[y][x], removed)
                    } else {
                        grid[y][x]
                    },
            ),
    )
}

/// The state after, for each repartition among the first `n` constraints in
/// the order of the list, the symbols that stand in its region as often as
/// they may were struck off the candidates of the cells of that region.
pub open spec fn with_prunings(
    state: Seq<Seq<Seq<CellStateView>>>,
    constraints: Seq<ConstraintView>,
    n: int,
) -> Seq<Seq<Seq<CellStateView>>>
    decreases n,
{
    if n <= 0 {
        state
    } else {
        let before = with_prunings(state, constraints, n - 1);
        match constraints[n - 1] {
            ConstraintView::SymbolRepartition { tokenset, region, repartition } => before.update(
                tokenset as int,
                pruned(
                    before[tokenset as int],
                    region,
                    settled(before[tokenset as int], region, repartition, repartition.len() as int),
                ),
            ),
            ConstraintView::GivenSymbol { .. } => before,
        }
    }
}

/// Sets the givens of the list, then goes through its repartitions in order:
/// a symbol that stands in a region as often as it may is struck off the
/// candidates of the cells of that region.
#[verifier::rlimit(50)]
pub fn apply_constraints(state: &mut State, constraints: &[Constraint])
    requires
        all_fit(old(state)@, views(constraints@)),
    ensures
        final(state)@ == with_prunings(
            with_givens(old(state)@, views(constraints@), constraints@.len() as int),
            views(constraints@),
            constraints@.len() as int,
        ),
        same_shape(final(state)@, old(state)@),
{
    let ghost list = views(constraints@);
    proof {
        assert forall|i: int| 0 <= i < list.len() implies match #[trigger] list[i] {
            ConstraintView::GivenSymbol { tokenset, cell, .. } => tokenset < state@.len() && cell_fits(
                state@[tokenset as int],
                cell,
            ),
            ConstraintView::SymbolRepartition { .. } => true,
        } by {
            assert(constraint_fits(state@, list[i]));
        }
    }
    crate::states::apply_constraints::apply_constraints(state, constraints);
    let ghost given = state@;
    let mut n: usize = 0;
    while n < constraints.len()
        invariant
            n <= constraints@.len(),
            list == views(constraints@),
            all_fit(old(state)@, list),
            same_shape(state@, old(state)@),
            same_shape(given, old(state)@),
            state@ == with_prunings(given, list, n as int),
        decreases constraints@.len() - n,
    {
        assert(list[n as int] == constraints@[n as int]@);
        assert(constraint_fits(old(state)@, list[n as int]));
        match &constraints[n] {
            Constraint::SymbolRepartition { tokenset, region, repartition } => {
                assert(region_fits(state@[*tokenset as int], region@)) by {
                    assert forall|k: int| 0 <= k < region@.len() implies cell_fits(
                        state@[*tokenset as int],
                        #[trigger] region@[k],
                    ) by {
                        assert(cell_fits(old(state)@[*tokenset as int], region@[k]));
                    }
                }
                apply_symbol_repartition(state, *tokenset, region, repartition);
            },
            _ => (),
        }
        n += 1;
    }
}

/// The symbols of the repartition that stand in the region as often as they
/// may.
fn list_settled(cells: &Vec<Vec<CellState>>, region: &Region, repartition: &Vec<(char, usize)>) -> (found: Vec<char>)
    requires
        region_fits(grid_view(cells@), region@),
    ensures
        found@ == settled(grid_view(cells@), region@, repartition@, repartition@.len() as int),
{
    let mut found: Vec<char> = Vec::new();
    let mut k: usize = 0;
    while k < repartition.len()
        invariant
            k <= repartition@.len(),
            region_fits(grid_view(cells@), region@),
            found@ == settled(grid_view(cells@), region@, repartition@, k as int),
        decreases repartition@.len() - k,
    {
        let symbol = repartition[k].0;
        let expected_count = repartition[k].1;
        let count = count_symbol(cells, region, symbol);
        if count == expected_count {
            found.push(symbol);
        }
        k += 1;
    }
    found
}

/// `symbols` holds `symbol`.
pub fn holds(symbols: &Vec<char>, symbol: char) -> (found: bool)
    ensures
        found == symbols@.contains(symbol),
{
    let mut k: usize = 0;
    while k < symbols.len()
        invariant
            k <= symbols@.len(),
            forall|i: int| 0 <= i < k ==> symbols@[i] != symbol,
        decreases symbols@.len() - k,
    {
        if symbols[k] == symbol {
            return true;
        }
        k += 1;
    }
    false
}

/// The candidates without the symbols that `removed` holds.
fn strike(candidates: &Vec<char>, removed: &Vec<char>) -> (left: Vec<char>)
    ensures
        left@ == without(candidates@, removed@, candidates@.len() as int),
{
    let mut left: Vec<char> = Vec::new();
    let mut k: usize = 0;
    while k < candidates.len()
        invariant
            k <= candidates@.len(),
            left@ == without(candidates@, removed@, k as int),
        decreases candidates@.len() - k,
    {
        let symbol = candidates[k];
        assert(symbol == symbol_at(candidates@, k as int));
        if !holds(removed, symbol) {
            left.push(symbol);
        }
        k += 1;
    }
    left
}

fn apply_symbol_repartition(state: &mut State, tokenset: usize, region: &Region, repartition: &Vec<(char, usize)>)
    requires
        tokenset < old(state)@.len(),
        region_fits(old(state)@[tokenset as int], region@),
    ensures
        final(state)@ == old(state)@.update(
            tokenset as int,
            pruned(
                old(state)@[tokenset as int],
                region@,
                settled(old(state)@[tokenset as int], region@, repartition@, repartition@.len() as int),
            ),
        ),
        same_shape(final(state)@, old(state)@),
{
    let ghost before = state@;
    let ghost grid = before[tokenset as int];
    match &mut state.tokensets[tokenset] {
        Tokenset::Symbols(cells) => {
            prune_region(cells, region, repartition);
        },
    }
    assert(state@ =~~= before.update(tokenset as int, pruned(grid, region@, removed_of(grid, region@, repartition@))));
}

/// Strikes off the candidates of the cells of the region the symbols that
/// stand in it as often as they may.
#[verifier::rlimit(50)]
fn prune_region(cells: &mut Vec<Vec<CellState>>, region: &Region, repartition: &Vec<(char, usize)>)
    requires
        region_fits(grid_view(old(cells)@), region@),
    ensures
        grid_view(final(cells)@) == pruned(
            grid_view(old(cells)@),
            region@,
            removed_of(grid_view(old(cells)@), region@, repartition@),
        ),
{
    let ghost grid = grid_view(cells@);
    let to_remove = list_settled(cells, region, repartition);
    let ghost removed = to_remove@;
    let mut k: usize = 0;
    assert(grid =~~= pruned(grid, region@.take(0), removed)) by {
        assert(region@.take(0) =~= Seq::<Cell>::empty());
    }
    while k < region.cells.len()
        invariant
            k <= region@.len(),
            region_fits(grid, region@),
            removed == to_remove@,
            grid_view(cells@) == pruned(grid, region@.take(k as int), removed),
        decreases region@.len() - k,
    {
        let cell = &region.cells[k];
        assert(cell_fits(grid, region@[k as int]));
        let ghost current = grid_view(cells@);
        let y = cell.1 as usize;
        let x = cell.0 as usize;
        assert(current.len() == grid.len());
        assert(current[y as int].len() == grid[y as int].len());
        assert(current[y as int] == line_view(cells@[y as int]@));
        let struck_off = match &cells[y][x] {
            CellState::Candidates(candidates) => Some(strike(candidates, &to_remove)),
            _ => None,
        };
        if let Some(left) = struck_off {
            cells[y][x] = CellState::Candidates(left);
        }
        k += 1;
        proof {
            lemma_pruned_step(grid, region@, removed, k as int - 1, current, grid_view(cells@));
        }
    }
    assert(region@.take(k as int) =~= region@);
}

/// The symbols that stand in the region as often as they may.
pub open spec fn removed_of(
    grid: Seq<Seq<CellStateView>>,
    region: Seq<Cell>,
    repartition: Seq<(char, usize)>,
) -> Seq<char> {
    settled(grid, region, repartition, repartition.len() as int)
}

/// Striking twice strikes no more than striking once.
proof fn lemma_without_twice(symbols: Seq<char>, removed: Seq<char>, n: int)
    requires
        0 <= n <= symbols.len(),
    ensures
        without(symbols, removed, n).len() <= n,
        forall|k: int| 0 <= k < without(symbols, removed, n).len() ==> !removed.contains(
            #[trigger] without(symbols, removed, n)[k],
        ),
    decreases n,
{
    if n > 0 {
        lemma_without_twice(symbols, removed, n - 1);
    }
}

/// Nothing is struck off candidates that hold none of the symbols.
proof fn lemma_without_nothing(symbols: Seq<char>, removed: Seq<char>, n: int)
    requires
        0 <= n <= symbols.len(),
        forall|k: int| 0 <= k < symbols.len() ==> !removed.contains(#[trigger] symbols[k]),
    ensures
        without(symbols, removed, n) == symbols.take(n),
    decreases n,
{
    if n > 0 {
        lemma_without_nothing(symbols, removed, n - 1);
        assert(!removed.contains(symbols[n - 1]));
        assert(symbols.take(n - 1).push(symbols[n - 1]) =~= symbols.take(n));
    } else {
        assert(symbols.take(0) =~= Seq::<char>::empty());
    }
}

/// A cell that was struck stays as it is when it is struck again.
proof fn lemma_struck_twice(cell: CellStateView, removed: Seq<char>)
    ensures
        struck(struck(cell, removed), removed) == struck(cell, removed),
{
    match cell {
        CellStateView::Candidates(candidates) => {
            let once = without(candidates, removed, candidates.len() as int);
            lemma_without_twice(candidates, removed, candidates.len() as int);
            lemma_without_nothing(once, removed, once.len() as int);
            assert(once.take(once.len() as int) =~= once);
        },
        _ => {},
    }
}

/// One step of pruning a region: the grid pruned for the first `k` cells,
/// with the next cell struck, is the grid pruned for the first `k + 1`
/// cells.
#[verifier::rlimit(50)]
proof fn lemma_pruned_step(
    grid: Seq<Seq<CellStateView>>,
    region: Seq<Cell>,
    removed: Seq<char>,
    k: int,
    current: Seq<Seq<CellStateView>>,
    next: Seq<Seq<CellStateView>>,
)
    requires
        0 <= k < region.len(),
        cell_fits(grid, region[k]),
        current == pruned(grid, region.take(k), removed),
        next.len() == current.len(),
        forall|y: int| 0 <= y < current.len() ==> (#[trigger] next[y]).len() == current[y].len(),
        forall|y: int, x: int|
            0 <= y < current.len() && 0 <= x < current[y].len() ==> #[trigger] next[y][x] == (if y == region[k].1
                && x == region[k].0 {
                struck(current[y][x], removed)
            } else {
                current[y][x]
            }),
    ensures
        next == pruned(grid, region.take(k + 1), removed),
{
    let cell = region[k];
    let shorter = region.take(k);
    let longer = region.take(k + 1);
    let goal = pruned(grid, longer, removed);
    assert(longer[k] == cell);
    assert forall|y: int, x: int| 0 <= y < goal.len() && 0 <= x < goal[y].len() implies #[trigger] next[y][x]
        == goal[y][x] by {
        if y == cell.1 && x == cell.0 {
            assert(reaches(longer, x, y));
            if reaches(shorter, x, y) {
                lemma_struck_twice(grid[y][x], removed);
            }
        } else {
            if reaches(longer, x, y) {
                let w = choose|w: int| 0 <= w < longer.len() && (#[trigger] longer[w]).0 == x && longer[w].1 == y;
                assert(w < k);
                assert(shorter[w] == longer[w]);
            }
            if reaches(shorter, x, y) {
                let w = choose|w: int| 0 <= w < shorter.len() && (#[trigger] shorter[w]).0 == x && shorter[w].1 == y;
                assert(longer[w] == shorter[w]);
            }
        }
    }
    assert(next =~~= goal);
}

} // verus!
