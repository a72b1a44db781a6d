use vstd::prelude::*;
use crate::settings::constraints::types::SettingError;
use crate::settings::puzzle_settings::PuzzleSetting;
use crate::settings::tokens::TokenSet;
use crate::states::base::State;
use crate::states::initialization::{Purpose, grids_known, initialize_symbolset, open_grid, open_state};
use crate::states::tokensets::Tokenset;

verus! {

/// Sets up the state that a solver starts from when it takes no notice of
/// the rules: every cell of every grid open, with all its candidates. It
/// never fails.
#[verifier::rlimit(50)]
pub fn initialize(setting: &PuzzleSetting) -> (result: Result<State, SettingError>)
    requires
        grids_known(setting),
    ensures
        result is Ok,
        result->Ok_0@ == open_state(setting, Purpose::Solving),
{
    let purpose = Purpose::Solving;
    let mut tokensets: Vec<Tokenset> = Vec::new();
    let mut t: usize = 0;
    while t < setting.tokensets.len()
        invariant
            t <= setting.tokensets@.len(),
            grids_known(setting),
            purpose == Purpose::Solving,
            tokensets@.len() == t,
            forall|k: int|
                0 <= k < t ==> (#[trigger] tokensets@[k])@ == open_grid(
                    setting.grids@[setting.tokensets@[k].grid() as int],
                    setting.tokensets@[k].candidates(),
                    Purpose::Solving,
                ),
        decreases setting.tokensets@.len() - t,
    {
        match &setting.tokensets[t] {
            TokenSet::Symbols { grid, candidates } => {
                assert(setting.tokensets@[t as int].grid() == *grid);
                let grid = &setting.grids[*grid];
                tokensets.push(initialize_symbolset(grid, candidates, &purpose));
            },
        }
        t += 1;
    }
    let result = State { tokensets };
    assert(result@ =~= open_state(setting, Purpose::Solving));
    Ok(result)
}

} // verus!
