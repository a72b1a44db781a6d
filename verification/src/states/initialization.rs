use vstd::prelude::*;
use crate::settings::constraints::listing::{grids_fit, list_constraints, listed};
use crate::settings::constraints::types::{ConstraintView, SettingError, views};
use crate::settings::grids::Grid;
use crate::settings::puzzle_settings::PuzzleSetting;
use crate::settings::tokens::TokenSet;
use crate::states::apply_constraints::{apply_constraints, givens_fit, with_givens};
use crate::states::base::State;
use crate::states::tokensets::{CellState, CellStateView, Tokenset, copy_symbols, line_view};

verus! {

/// What a state is set up for.
pub enum Purpose {
    /// For a player: open cells are empty.
    Playing,
    /// For a solver: open cells list their candidates.
    Solving,
}

/// What an open cell holds at the start.
pub open spec fn open_cell(candidates: Seq<char>, purpose: Purpose) -> CellStateView {
    match purpose {
        Purpose::Playing => CellStateView::Empty,
        Purpose::Solving => CellStateView::Candidates(candidates),
    }
}

/// A grid of open cells: as many lines as the grid has columns, each as long
/// as the grid has rows.
pub open spec fn open_grid(grid: Grid, candidates: Seq<char>, purpose: Purpose) -> Seq<Seq<CellStateView>> {
    Seq::new(grid.columns as nat, |y: int| Seq::new(grid.rows as nat, |x: int| open_cell(candidates, purpose)))
}

/// The state in which every cell of every grid is open.
pub open spec fn open_state(setting: &PuzzleSetting, purpose: Purpose) -> Seq<Seq<Seq<CellStateView>>> {
    Seq::new(
        setting.tokensets@.len(),
        |t: int|
            open_grid(
                setting.grids@[setting.tokensets@[t].grid() as int],
                setting.tokensets@[t].candidates(),
                purpose,
            ),
    )
}

/// Every set of tokens names a grid that the puzzle has.
pub open spec fn grids_known(setting: &PuzzleSetting) -> bool {
    forall|t: int| 0 <= t < setting.tokensets@.len() ==> (#[trigger] setting.tokensets@[t]).grid() < setting.grids@.len()
}

/// The givens that the rules list lie on the grids they are meant for.
pub open spec fn givens_known(setting: &PuzzleSetting, purpose: Purpose) -> bool {
    match listed(setting, setting.rules@.len() as int) {
        Ok(constraints) => givens_fit(open_state(setting, purpose), constraints),
        Err(_) => true,
    }
}

/// Sets up the state of a puzzle: every cell open, then the givens of the
/// rules set. Fails where the rules cannot be spelled out.
#[verifier::rlimit(50)]
pub fn initialize(setting: &PuzzleSetting, purpose: Purpose) -> (result: Result<State, SettingError>)
    requires
        grids_fit(setting),
        grids_known(setting),
        givens_known(setting, purpose),
    ensures
        match result {
            Ok(state) => {
                &&& listed(setting, setting.rules@.len() as int) is Ok
                &&& state@ == with_givens(
                    open_state(setting, purpose),
                    listed(setting, setting.rules@.len() as int)->Ok_0,
                    listed(setting, setting.rules@.len() as int)->Ok_0.len() as int,
                )
            },
            Err(e) => listed(setting, setting.rules@.len() as int) == Err::<Seq<ConstraintView>, SettingError>(e),
        },
{
    let mut tokensets: Vec<Tokenset> = Vec::new();
    let mut t: usize = 0;
    while t < setting.tokensets.len()
        invariant
            t <= setting.tokensets@.len(),
            grids_known(setting),
            tokensets@.len() == t,
            forall|k: int|
                0 <= k < t ==> (#[trigger] tokensets@[k])@ == open_grid(
                    setting.grids@[setting.tokensets@[k].grid() as int],
                    setting.tokensets@[k].candidates(),
                    purpose,
                ),
        decreases setting.tokensets@.len() - t,
    {
        match &setting.tokensets[t] {
            TokenSet::Symbols { grid, candidates } => {
                assert(setting.tokensets@[t as int].grid() == *grid);
                let grid = &setting.grids[*grid];
                tokensets.push(initialize_symbolset(grid, candidates, &purpose));
            },
        }
        t += 1;
    }
    let mut result = State { tokensets };
    assert(result@ =~= open_state(setting, purpose));
    match list_constraints(setting) {
        Err(e) => Err(e),
        Ok(constraints) => {
            apply_constraints(&mut result, constraints.as_slice());
            Ok(result)
        },
    }
}

/// A grid on which every cell is open.
pub fn initialize_symbolset(grid: &Grid, candidates: &Vec<char>, purpose: &Purpose) -> (tokenset: Tokenset)
    ensures
        tokenset@ == open_grid(*grid, candidates@, *purpose),
{
    let mut cells: Vec<Vec<CellState>> = Vec::new();
    let mut y: usize = 0;
    while y < grid.columns
        invariant
            y <= grid.columns,
            cells@.len() == y,
            forall|k: int|
                0 <= k < y ==> line_view((#[trigger] cells@[k])@) == Seq::new(
                    grid.rows as nat,
                    |x: int| open_cell(candidates@, *purpose),
                ),
        decreases grid.columns - y,
    {
        let mut line: Vec<CellState> = Vec::new();
        let mut x: usize = 0;
        while x < grid.rows
            invariant
                x <= grid.rows,
                line@.len() == x,
                forall|k: int| 0 <= k < x ==> (#[trigger] line@[k])@ == open_cell(candidates@, *purpose),
            decreases grid.rows - x,
        {
            let default = match purpose {
                Purpose::Playing => CellState::Empty,
                Purpose::Solving => CellState::Candidates(copy_symbols(candidates)),
            };
            line.push(default);
            x += 1;
        }
        assert(line_view(line@) =~= Seq::new(grid.rows as nat, |x: int| open_cell(candidates@, *purpose)));
        cells.push(line);
        y += 1;
    }
    let tokenset = Tokenset::Symbols(cells);
    assert(tokenset@ =~= open_grid(*grid, candidates@, *purpose));
    tokenset
}

} // verus!
