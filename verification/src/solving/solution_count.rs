use vstd::prelude::*;
use crate::dancing_links::counting::clipped;
use crate::settings::constraints::listing::{grids_fit, list_constraints, listed};
use crate::settings::constraints::types::{Constraint, ConstraintView, SettingError, views};
use crate::settings::presets::common::symbol_at;
use crate::settings::puzzle_settings::PuzzleSetting;
use crate::settings::tokens::TokenSet;
use crate::shapes::Cell;
use crate::states::apply_constraints::{same_shape, with_symbol};
use crate::states::base::State;
use crate::states::status::{Status, all_fit, compute_status, constraint_fits, overall};
use crate::states::tokensets::{CellState, CellStateView, Tokenset, cell_fits, copy_symbols, grid_view, line_view};

verus! {

/// The cell holds no symbol yet.
pub open spec fn is_open(cell: CellStateView) -> bool {
    !(cell is Fixed)
}

/// The sum of the first `n` numbers of the list.
pub open spec fn total(numbers: Seq<nat>, n: int) -> nat
    decreases n,
{
    if n <= 0 {
        0
    } else {
        total(numbers, n - 1) + numbers[n - 1]
    }
}

/// The number of open cells of a line.
pub open spec fn open_in_line(line: Seq<CellStateView>) -> nat {
    total(Seq::new(line.len(), |x: int| if is_open(line[x]) { 1nat } else { 0nat }), line.len() as int)
}

/// The number of open cells of a grid.
pub open spec fn open_in_grid(grid: Seq<Seq<CellStateView>>) -> nat {
    total(Seq::new(grid.len(), |y: int| open_in_line(grid[y])), grid.len() as int)
}

/// The number of open cells of a state.
pub open spec fn open_cells(state: Seq<Seq<Seq<CellStateView>>>) -> nat {
    total(Seq::new(state.len(), |t: int| open_in_grid(state[t])), state.len() as int)
}

/// The cell at column `x` of line `y` of grid `t` is the first open cell of
/// the state: no grid before `t`, no line of grid `t` before `y` and no cell
/// of that line before `x` is open.
pub open spec fn pivot_at(state: Seq<Seq<Seq<CellStateView>>>, t: int, y: int, x: int) -> bool {
    &&& 0 <= t < state.len()
    &&& 0 <= y < state[t].len()
    &&& 0 <= x < state[t][y].len()
    &&& is_open(state[t][y][x])
    &&& forall|t2: int, y2: int, x2: int|
        0 <= t2 < t && 0 <= y2 < state[t2].len() && 0 <= x2 < state[t2][y2].len() ==> !is_open(
            #[trigger] state[t2][y2][x2],
        )
    &&& forall|y2: int, x2: int| 0 <= y2 < y && 0 <= x2 < state[t][y2].len() ==> !is_open(#[trigger] state[t][y2][x2])
    &&& forall|x2: int| 0 <= x2 < x ==> !is_open(#[trigger] state[t][y][x2])
}

/// Some cell of the state is open.
pub open spec fn has_open(state: Seq<Seq<Seq<CellStateView>>>) -> bool {
    exists|t: int, y: int, x: int| pivot_at(state, t, y, x)
}

/// The first open cell of the state: its grid, its line and its column.
pub open spec fn pivot(state: Seq<Seq<Seq<CellStateView>>>) -> (int, int, int) {
    choose|p: (int, int, int)| pivot_at(state, p.0, p.1, p.2)
}

/// The state with `symbol` set at column `x` of line `y` of grid `t`.
pub open spec fn tried(state: Seq<Seq<Seq<CellStateView>>>, t: int, y: int, x: int, symbol: char) -> Seq<
    Seq<Seq<CellStateView>>,
> {
    state.update(t, state[t].update(y, state[t][y].update(x, CellStateView::Fixed(symbol))))
}

/// The number of ways to fill the open cells of the state, each with a
/// candidate of its grid, first open cell first, such that the constraints
/// are met: none if the state breaks a constraint; else one if it meets them
/// all, and on top of that what filling the first open cell leads to.
pub open spec fn tally(
    candidates: Seq<Seq<char>>,
    state: Seq<Seq<Seq<CellStateView>>>,
    constraints: Seq<ConstraintView>,
) -> nat
    decreases open_cells(state), 1nat, 0nat,
{
    let status = overall(state, constraints);
    if status == Status::Invalid {
        0
    } else {
        let met: nat = if status == Status::Valid {
            1
        } else {
            0
        };
        if has_open(state) && pivot(state).0 < candidates.len() {
            let (t, y, x) = pivot(state);
            met + tries(candidates, state, constraints, t, y, x, candidates[t].len() as int)
        } else {
            met
        }
    }
}

/// What the first `k` candidates lead to when they are set, one after the
/// other, at an open cell.
pub open spec fn tries(
    candidates: Seq<Seq<char>>,
    state: Seq<Seq<Seq<CellStateView>>>,
    constraints: Seq<ConstraintView>,
    t: int,
    y: int,
    x: int,
    k: int,
) -> nat
    decreases open_cells(state), 0nat, k,
    when 0 <= t < state.len() && 0 <= y < state[t].len() && 0 <= x < state[t][y].len() && is_open(state[t][y][x])
{
    if k <= 0 {
        0
    } else {
        proof {
            lemma_tried_closes(state, t, y, x, symbol_at(candidates[t], k - 1));
        }
        tries(candidates, state, constraints, t, y, x, k - 1) + tally(
            candidates,
            tried(state, t, y, x, symbol_at(candidates[t], k - 1)),
            constraints,
        )
    }
}

/// Changing one number of a list changes the sum by the difference.
proof fn lemma_total_update(numbers: Seq<nat>, i: int, value: nat, n: int)
    requires
        0 <= i < numbers.len(),
        0 <= n <= numbers.len(),
    ensures
        total(numbers.update(i, value), n) + (if i < n { numbers[i] } else { 0 }) == total(numbers, n) + (if i < n {
            value
        } else {
            0
        }),
    decreases n,
{
    if n > 0 {
        lemma_total_update(numbers, i, value, n - 1);
    }
}

/// Setting a symbol at an open cell leaves one open cell less.
#[verifier::rlimit(50)]
pub proof fn lemma_tried_closes(state: Seq<Seq<Seq<CellStateView>>>, t: int, y: int, x: int, symbol: char)
    requires
        0 <= t < state.len(),
        0 <= y < state[t].len(),
        0 <= x < state[t][y].len(),
        is_open(state[t][y][x]),
    ensures
        open_cells(tried(state, t, y, x, symbol)) + 1 == open_cells(state),
{
    let line = state[t][y];
    let grid = state[t];
    let new_line = line.update(x, CellStateView::Fixed(symbol));
    let new_grid = grid.update(y, new_line);
    let new_state = state.update(t, new_grid);
    let marks = Seq::new(line.len(), |x: int| if is_open(line[x]) { 1nat } else { 0nat });
    let new_marks = Seq::new(new_line.len(), |x: int| if is_open(new_line[x]) { 1nat } else { 0nat });
    assert(new_marks =~= marks.update(x, 0nat));
    lemma_total_update(marks, x, 0nat, line.len() as int);
    assert(open_in_line(new_line) + 1 == open_in_line(line));
    let lines = Seq::new(grid.len(), |y: int| open_in_line(grid[y]));
    let new_lines = Seq::new(new_grid.len(), |y: int| open_in_line(new_grid[y]));
    assert(new_lines =~= lines.update(y, open_in_line(new_line)));
    lemma_total_update(lines, y, open_in_line(new_line), grid.len() as int);
    assert(open_in_grid(new_grid) + 1 == open_in_grid(grid));
    let grids = Seq::new(state.len(), |t: int| open_in_grid(state[t]));
    let new_grids = Seq::new(new_state.len(), |t: int| open_in_grid(new_state[t]));
    assert(new_grids =~= grids.update(t, open_in_grid(new_grid)));
    lemma_total_update(grids, t, open_in_grid(new_grid), state.len() as int);
}

/// The candidate symbols of each set of tokens of the puzzle.
pub open spec fn candidates_of(setting: &PuzzleSetting) -> Seq<Seq<char>> {
    Seq::new(setting.tokensets@.len(), |t: int| setting.tokensets@[t].candidates())
}

/// What the search does next.
enum Pivot {
    /// Fill this cell with each of the candidates in turn.
    Symbolset { tokenset: usize, cell: Cell, candidates: Vec<char> },
    /// Every cell is filled.
    Unset,
}

/// Counts the ways to fill the open cells of the state with candidates such
/// that the rules of the puzzle are met. The state is the same afterwards.
/// Fails where the rules cannot be spelled out. A count that no machine word
/// can hold is reported as the largest word.
pub fn count_solutions(setting: &PuzzleSetting, state: &mut State) -> (result: Result<usize, SettingError>)
    requires
        grids_fit(setting),
        old(state)@.len() <= setting.tokensets@.len(),
        listed(setting, setting.rules@.len() as int) is Ok ==> all_fit(
            old(state)@,
            listed(setting, setting.rules@.len() as int)->Ok_0,
        ),
        forall|t: int, y: int|
            0 <= t < old(state)@.len() && 0 <= y < old(state)@[t].len() ==> (#[trigger] old(state)@[t][y]).len()
                <= isize::MAX,
        forall|t: int| 0 <= t < old(state)@.len() ==> (#[trigger] old(state)@[t]).len() <= isize::MAX,
    ensures
        final(state)@ == old(state)@,
        match result {
            Ok(count) => {
                &&& listed(setting, setting.rules@.len() as int) is Ok
                &&& count == clipped(
                    tally(candidates_of(setting), old(state)@, listed(setting, setting.rules@.len() as int)->Ok_0),
                )
            },
            Err(e) => listed(setting, setting.rules@.len() as int) == Err::<Seq<ConstraintView>, SettingError>(e),
        },
{
    match list_constraints(setting) {
        Err(e) => Err(e),
        Ok(constraints) => do_count_solutions(setting, state, constraints.as_slice()),
    }
}

#[verifier::rlimit(50)]
fn do_count_solutions(setting: &PuzzleSetting, state: &mut State, constraints: &[Constraint]) -> (result: Result<
    usize,
    SettingError,
>)
    requires
        old(state)@.len() <= setting.tokensets@.len(),
        all_fit(old(state)@, views(constraints@)),
        forall|t: int, y: int|
            0 <= t < old(state)@.len() && 0 <= y < old(state)@[t].len() ==> (#[trigger] old(state)@[t][y]).len()
                <= isize::MAX,
        forall|t: int| 0 <= t < old(state)@.len() ==> (#[trigger] old(state)@[t]).len() <= isize::MAX,
    ensures
        final(state)@ == old(state)@,
        result == Ok::<usize, SettingError>(
            clipped(tally(candidates_of(setting), old(state)@, views(constraints@))),
        ),
    decreases open_cells(old(state)@),
{
    let ghost start = state@;
    let ghost list = views(constraints@);
    let ghost symbols = candidates_of(setting);
    let mut result: usize = 0;
    match compute_status(state, constraints) {
        Err(e) => {
            return Err(e);
        },
        Ok(Status::Valid) => {
            result += 1;
        },
        Ok(Status::Invalid) => {
            return Ok(0);
        },
        Ok(Status::Ongoing) => (),
    }
    let ghost met = result;
    let iterator = find_pivot(setting, state);
    match iterator {
        Pivot::Symbolset { tokenset, cell, candidates } => {
            let ghost t = tokenset as int;
            let ghost y = cell.1 as int;
            let ghost x = cell.0 as int;
            proof {
                lemma_pivot_unique(start, t, y, x);
                assert(symbols[t] == candidates@);
            }
            let previous = get_cell(state, tokenset, &cell);
            let mut k: usize = 0;
            while k < candidates.len()
                invariant
                    k <= candidates@.len(),
                    start == old(state)@,
                    list == views(constraints@),
                    symbols == candidates_of(setting),
                    symbols[t] == candidates@,
                    t == tokenset,
                    y == cell.1,
                    x == cell.0,
                    start.len() <= setting.tokensets@.len(),
                    all_fit(start, list),
                    pivot_at(start, t, y, x),
                    forall|t: int, y: int|
                        0 <= t < start.len() && 0 <= y < start[t].len() ==> (#[trigger] start[t][y]).len()
                            <= isize::MAX,
                    forall|t: int| 0 <= t < start.len() ==> (#[trigger] start[t]).len() <= isize::MAX,
                    state@ == (if k == 0 {
                        start
                    } else {
                        tried(start, t, y, x, symbol_at(candidates@, k - 1))
                    }),
                    result == clipped((met + tries(symbols, start, list, t, y, x, k as int)) as nat),
                    met <= 1,
                decreases candidates@.len() - k,
            {
                let candidate = candidates[k];
                assert(candidate == symbol_at(candidates@, k as int));
                set_cell(state, tokenset, &cell, CellState::Fixed(candidate));
                proof {
                    let next = tried(start, t, y, x, candidate);
                    assert(state@ =~~= next);
                    lemma_tried_closes(start, t, y, x, candidate);
                    lemma_tried_fits(start, list, t, y, x, candidate);
                }
                match do_count_solutions(setting, state, constraints) {
                    Ok(found) => {
                        result = result.saturating_add(found);
                    },
                    Err(e) => {
                        return Err(e);
                    },
                }
                k += 1;
            }
            set_cell(state, tokenset, &cell, previous);
            assert(state@ =~~= start);
        },
        Pivot::Unset => {
            proof {
                if has_open(start) {
                    let p = pivot(start);
                    assert(pivot_at(start, p.0, p.1, p.2));
                }
            }
        },
    }
    Ok(result)
}

/// Setting a symbol keeps every constraint on the grids of the state.
#[verifier::rlimit(50)]
proof fn lemma_tried_fits(
    state: Seq<Seq<Seq<CellStateView>>>,
    constraints: Seq<ConstraintView>,
    t: int,
    y: int,
    x: int,
    symbol: char,
)
    requires
        0 <= t < state.len(),
        0 <= y < state[t].len(),
        0 <= x < state[t][y].len(),
        all_fit(state, constraints),
    ensures
        all_fit(tried(state, t, y, x, symbol), constraints),
        tried(state, t, y, x, symbol).len() == state.len(),
        forall|t2: int| 0 <= t2 < state.len() ==> (#[trigger] tried(state, t, y, x, symbol)[t2]).len() == state[t2].len(),
        forall|t2: int, y2: int|
            0 <= t2 < state.len() && 0 <= y2 < state[t2].len() ==> (#[trigger] tried(
                state,
                t,
                y,
                x,
                symbol,
            )[t2][y2]).len() == state[t2][y2].len(),
{
    let next = tried(state, t, y, x, symbol);
    assert forall|i: int| 0 <= i < constraints.len() implies constraint_fits(next, #[trigger] constraints[i]) by {
        assert(constraint_fits(state, constraints[i]));
        match constraints[i] {
            ConstraintView::SymbolRepartition { tokenset, region, .. } => {
                assert forall|k: int| 0 <= k < region.len() implies cell_fits(
                    next[tokenset as int],
                    #[trigger] region[k],
                ) by {
                    assert(cell_fits(state[tokenset as int], region[k]));
                }
            },
            _ => {},
        }
    }
}

/// A state has one first open cell at most.
proof fn lemma_pivot_unique(state: Seq<Seq<Seq<CellStateView>>>, t: int, y: int, x: int)
    requires
        pivot_at(state, t, y, x),
    ensures
        has_open(state),
        pivot(state) == (t, y, x),
{
    let found = (t, y, x);
    assert(pivot_at(state, found.0, found.1, found.2));
    let p = pivot(state);
    assert(pivot_at(state, p.0, p.1, p.2));
    if p.0 < t {
        assert(!is_open(state[p.0][p.1][p.2]));
    } else if p.0 > t {
        assert(!is_open(state[t][y][x]));
    } else if p.1 < y {
        assert(!is_open(state[t][p.1][p.2]));
    } else if p.1 > y {
        assert(!is_open(state[t][y][x]));
    } else if p.2 < x {
        assert(!is_open(state[t][y][p.2]));
    } else if p.2 > x {
        assert(!is_open(state[t][y][x]));
    }
}

/// What the cell holds.
fn get_cell(state: &State, tokenset: usize, cell: &Cell) -> (held: CellState)
    requires
        tokenset < state@.len(),
        cell_fits(state@[tokenset as int], *cell),
    ensures
        held@ == state@[tokenset as int][cell.1 as int][cell.0 as int],
{
    match &state.tokensets[tokenset] {
        Tokenset::Symbols(cells) => cells[cell.1 as usize][cell.0 as usize].clone(),
    }
}

/// Puts `held` into the cell.
fn set_cell(state: &mut State, tokenset: usize, cell: &Cell, held: CellState)
    requires
        tokenset < old(state)@.len(),
        cell_fits(old(state)@[tokenset as int], *cell),
    ensures
        final(state)@ == old(state)@.update(
            tokenset as int,
            old(state)@[tokenset as int].update(
                cell.1 as int,
                old(state)@[tokenset as int][cell.1 as int].update(cell.0 as int, held@),
            ),
        ),
{
    let ghost before = state@;
    match &mut state.tokensets[tokenset] {
        Tokenset::Symbols(cells) => {
            cells[cell.1 as usize][cell.0 as usize] = held;
        },
    }
    assert(state@ =~~= before.update(
        tokenset as int,
        before[tokenset as int].update(
            cell.1 as int,
            before[tokenset as int][cell.1 as int].update(cell.0 as int, held@),
        ),
    ));
}

/// Looks for the first open cell, grid after grid, line after line.
#[verifier::rlimit(50)]
fn find_pivot(setting: &PuzzleSetting, state: &State) -> (found: Pivot)
    requires
        state@.len() <= setting.tokensets@.len(),
        forall|t: int, y: int|
            0 <= t < state@.len() && 0 <= y < state@[t].len() ==> (#[trigger] state@[t][y]).len() <= isize::MAX,
        forall|t: int| 0 <= t < state@.len() ==> (#[trigger] state@[t]).len() <= isize::MAX,
    ensures
        match found {
            Pivot::Symbolset { tokenset, cell, candidates } => {
                &&& pivot_at(state@, tokenset as int, cell.1 as int, cell.0 as int)
                &&& candidates@ == setting.tokensets@[tokenset as int].candidates()
            },
            Pivot::Unset => !has_open(state@),
        },
{
    let mut index: usize = 0;
    while index < state.tokensets.len()
        invariant
            index <= state@.len() <= setting.tokensets@.len(),
            forall|t: int, y: int|
                0 <= t < state@.len() && 0 <= y < state@[t].len() ==> (#[trigger] state@[t][y]).len()
                    <= isize::MAX,
            forall|t: int| 0 <= t < state@.len() ==> (#[trigger] state@[t]).len() <= isize::MAX,
            forall|t2: int, y2: int, x2: int|
                0 <= t2 < index && 0 <= y2 < state@[t2].len() && 0 <= x2 < state@[t2][y2].len() ==> !is_open(
                    #[trigger] state@[t2][y2][x2],
                ),
        decreases state@.len() - index,
    {
        match &state.tokensets[index] {
            Tokenset::Symbols(cells) => {
                let ghost grid = state@[index as int];
                assert(grid == grid_view(cells@));
                let mut row: usize = 0;
                while row < cells.len()
                    invariant
                        row <= cells@.len(),
                        index < state@.len() <= setting.tokensets@.len(),
                        grid == state@[index as int],
                        grid == grid_view(cells@),
                        grid.len() <= isize::MAX,
                        forall|y: int| 0 <= y < grid.len() ==> (#[trigger] grid[y]).len() <= isize::MAX,
                        forall|t2: int, y2: int, x2: int|
                            0 <= t2 < index && 0 <= y2 < state@[t2].len() && 0 <= x2 < state@[t2][y2].len()
                                ==> !is_open(#[trigger] state@[t2][y2][x2]),
                        forall|y2: int, x2: int|
                            0 <= y2 < row && 0 <= x2 < grid[y2].len() ==> !is_open(#[trigger] grid[y2][x2]),
                    decreases cells@.len() - row,
                {
                    assert(grid[row as int] == line_view(cells@[row as int]@));
                    let mut column: usize = 0;
                    while column < cells[row].len()
                        invariant
                            row < cells@.len(),
                            column <= cells@[row as int]@.len(),
                            index < state@.len() <= setting.tokensets@.len(),
                            grid == state@[index as int],
                            grid == grid_view(cells@),
                            grid[row as int] == line_view(cells@[row as int]@),
                            grid.len() <= isize::MAX,
                            grid[row as int].len() <= isize::MAX,
                            forall|t2: int, y2: int, x2: int|
                                0 <= t2 < index && 0 <= y2 < state@[t2].len() && 0 <= x2 < state@[t2][y2].len()
                                    ==> !is_open(#[trigger] state@[t2][y2][x2]),
                            forall|y2: int, x2: int|
                                0 <= y2 < row && 0 <= x2 < grid[y2].len() ==> !is_open(#[trigger] grid[y2][x2]),
                            forall|x2: int| 0 <= x2 < column ==> !is_open(#[trigger] grid[row as int][x2]),
                        decreases cells@[row as int]@.len() - column,
                    {
                        let cell = Cell(column as isize, row as isize);
                        let fixed = match &cells[row][column] {
                            CellState::Fixed(_) => true,
                            _ => false,
                        };
                        if !fixed {
                            let candidates = match &setting.tokensets[index] {
                                TokenSet::Symbols { grid: _, candidates } => copy_symbols(candidates),
                            };
                            return Pivot::Symbolset { tokenset: index, cell, candidates };
                        }
                        column += 1;
                    }
                    row += 1;
                }
            },
        }
        index += 1;
    }
    proof {
        if has_open(state@) {
            let p = pivot(state@);
            assert(pivot_at(state@, p.0, p.1, p.2));
            assert(!is_open(state@[p.0][p.1][p.2]));
        }
    }
    Pivot::Unset
}

} // verus!
