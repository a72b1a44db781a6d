use vstd::prelude::*;
use crate::settings::grids::Grid;
use crate::settings::rules::Rule;
use crate::settings::tokens::{GridIndex, TokenSet, TokenSetIndex};

verus! {

/// A puzzle: its grids, what is placed on them, and its rules.
#[derive(Debug)]
pub struct PuzzleSetting {
    pub grids: Vec<Grid>,
    pub tokensets: Vec<TokenSet>,
    pub rules: Vec<Rule>,
}

impl Default for PuzzleSetting {
    fn default() -> (setting: PuzzleSetting)
        ensures
            setting.grids@.len() == 0,
            setting.tokensets@.len() == 0,
            setting.rules@.len() == 0,
    {
        PuzzleSetting { grids: Vec::new(), tokensets: Vec::new(), rules: Vec::new() }
    }
}

impl PuzzleSetting {
    /// Adds a grid of `rows` by `columns` cells and says where it stands.
    pub fn add_grid(&mut self, rows: usize, columns: usize) -> (index: GridIndex)
        ensures
            index == old(self).grids@.len(),
            final(self).grids@ == old(self).grids@.push(Grid { rows, columns }),
            final(self).tokensets == old(self).tokensets,
            final(self).rules == old(self).rules,
    {
        let index = self.grids.len();
        self.grids.push(Grid { rows, columns });
        index
    }

    /// Adds a set of tokens and says where it stands.
    pub fn add_symbolset(&mut self, tokenset: TokenSet) -> (index: TokenSetIndex)
        ensures
            index == old(self).tokensets@.len(),
            final(self).tokensets@ == old(self).tokensets@.push(tokenset),
            final(self).grids == old(self).grids,
            final(self).rules == old(self).rules,
    {
        let index = self.tokensets.len();
        self.tokensets.push(tokenset);
        index
    }
}

} // verus!
