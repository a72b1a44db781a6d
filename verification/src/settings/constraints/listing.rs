use vstd::prelude::*;
use crate::settings::constraints::types::{Constraint, ConstraintView, SettingError, views};
use crate::settings::grids::Grid;
use crate::settings::puzzle_settings::PuzzleSetting;
use crate::settings::rules::{GivenSymbol, Rule};
use crate::settings::tokens::{TokenSet, TokenSetIndex};
use crate::shapes::regions::{column_at, row_at};
use crate::shapes::{Cell, Region};

verus! {

/// Every symbol of `candidates` once.
pub open spec fn once_each(candidates: Seq<char>) -> Seq<(char, usize)> {
    Seq::new(candidates.len(), |i: int| (candidates[i], 1usize))
}

/// The regions that a sudoku rule speaks of on a grid: those it names, then
/// the rows top to bottom, then the columns left to right.
pub open spec fn sudoku_regions(named: Seq<Seq<Cell>>, grid: Grid) -> Seq<Seq<Cell>> {
    named + Seq::new(grid.rows as nat, |i: int| row_at(i, grid.columns as int)) + Seq::new(
        grid.columns as nat,
        |i: int| column_at(i, grid.rows as int),
    )
}

/// What one rule comes down to: for each of its regions that every
/// candidate stands in it once, then for each given that it stands in its
/// cell; or the reason why the rule cannot be read.
pub open spec fn rule_constraints(setting: &PuzzleSetting, rule: &Rule) -> Result<
    Seq<ConstraintView>,
    SettingError,
> {
    let index = rule.tokenset();
    if index >= setting.tokensets@.len() {
        Err(SettingError::TokensetOutOfRange)
    } else {
        let tokenset = setting.tokensets@[index as int];
        if tokenset.grid() >= setting.grids@.len() {
            Err(SettingError::GridOutOfRange)
        } else {
            let regions = sudoku_regions(rule.regions(), setting.grids@[tokenset.grid() as int]);
            let givens = rule.givens();
            Ok(
                Seq::new(
                    regions.len(),
                    |i: int|
                        ConstraintView::SymbolRepartition {
                            tokenset: index,
                            repartition: once_each(tokenset.candidates()),
                            region: regions[i],
                        },
                ) + Seq::new(
                    givens.len(),
                    |i: int|
                        ConstraintView::GivenSymbol { tokenset: index, cell: givens[i].cell, symbol: givens[i].symbol },
                ),
            )
        }
    }
}

/// What the first `n` rules come down to, rule after rule; or the reason
/// why the first rule that cannot be read cannot be read.
pub open spec fn listed(setting: &PuzzleSetting, n: int) -> Result<Seq<ConstraintView>, SettingError>
    decreases n,
{
    if n <= 0 {
        Ok(Seq::empty())
    } else {
        match listed(setting, n - 1) {
            Err(e) => Err(e),
            Ok(front) => match rule_constraints(setting, &setting.rules@[n - 1]) {
                Err(e) => Err(e),
                Ok(more) => Ok(front + more),
            },
        }
    }
}

/// No grid is larger than a coordinate can say.
pub open spec fn grids_fit(setting: &PuzzleSetting) -> bool {
    forall|i: int|
        0 <= i < setting.grids@.len() ==> (#[trigger] setting.grids@[i]).rows <= isize::MAX
            && setting.grids@[i].columns <= isize::MAX
}

/// Spells out the rules of a puzzle as constraints, rule after rule.
pub fn list_constraints(setting: &PuzzleSetting) -> (result: Result<Vec<Constraint>, SettingError>)
    requires
        grids_fit(setting),
    ensures
        match result {
            Ok(constraints) => listed(setting, setting.rules@.len() as int) == Ok::<
                Seq<ConstraintView>,
                SettingError,
            >(views(constraints@)),
            Err(e) => listed(setting, setting.rules@.len() as int) == Err::<Seq<ConstraintView>, SettingError>(e),
        },
{
    let mut result: Vec<Constraint> = Vec::new();
    let mut n: usize = 0;
    assert(views(result@) =~= Seq::empty());
    while n < setting.rules.len()
        invariant
            n <= setting.rules@.len(),
            grids_fit(setting),
            listed(setting, n as int) == Ok::<Seq<ConstraintView>, SettingError>(views(result@)),
        decreases setting.rules@.len() - n,
    {
        let rule = &setting.rules[n];
        match rule {
            Rule::Sudoku { tokenset, regions, givens } => {
                match iter_sudoku_constraints(setting, *tokenset, regions, givens) {
                    Err(e) => {
                        proof {
                            lemma_listed_fails(setting, n as int + 1, setting.rules@.len() as int);
                        }
                        return Err(e);
                    },
                    Ok(mut constraints) => {
                        let ghost front = views(result@);
                        let ghost more = views(constraints@);
                        result.append(&mut constraints);
                        assert(views(result@) =~= front + more);
                    },
                }
            },
        }
        n += 1;
    }
    Ok(result)
}

/// Once a rule cannot be read, the rules behind it change nothing.
proof fn lemma_listed_fails(setting: &PuzzleSetting, n: int, m: int)
    requires
        0 <= n <= m,
        listed(setting, n) is Err,
    ensures
        listed(setting, m) == listed(setting, n),
    decreases m - n,
{
    if n < m {
        lemma_listed_fails(setting, n, m - 1);
    }
}

#[verifier::rlimit(50)]
fn iter_sudoku_constraints(
    setting: &PuzzleSetting,
    tokenset_index: TokenSetIndex,
    regions: &Vec<Region>,
    givens: &Vec<GivenSymbol>,
) -> (result: Result<Vec<Constraint>, SettingError>)
    requires
        grids_fit(setting),
    ensures
        ({
            let rule = Rule::Sudoku { tokenset: tokenset_index, regions: *regions, givens: *givens };
            match result {
                Ok(constraints) => rule_constraints(setting, &rule) == Ok::<Seq<ConstraintView>, SettingError>(
                    views(constraints@),
                ),
                Err(e) => rule_constraints(setting, &rule) == Err::<Seq<ConstraintView>, SettingError>(e),
            }
        }),
{
    if tokenset_index >= setting.tokensets.len() {
        return Err(SettingError::TokensetOutOfRange);
    }
    let tokenset = &setting.tokensets[tokenset_index];
    match tokenset {
        TokenSet::Symbols { grid, candidates } => {
            if *grid >= setting.grids.len() {
                return Err(SettingError::GridOutOfRange);
            }
            let grid = setting.grids[*grid];
            let ghost rule = Rule::Sudoku { tokenset: tokenset_index, regions: *regions, givens: *givens };
            let ghost all = sudoku_regions(rule.regions(), grid);
            let rows = Region::rows(grid.rows, grid.columns);
            let columns = Region::columns(grid.columns, grid.rows);
            let mut result: Vec<Constraint> = Vec::new();
            let mut i: usize = 0;
            while i < regions.len()
                invariant
                    i <= regions@.len(),
                    all == sudoku_regions(rule.regions(), grid),
                    rule == (Rule::Sudoku { tokenset: tokenset_index, regions: *regions, givens: *givens }),
                    result@.len() == i,
                    forall|k: int|
                        0 <= k < i ==> (#[trigger] result@[k])@ == (ConstraintView::SymbolRepartition {
                            tokenset: tokenset_index,
                            repartition: once_each(candidates@),
                            region: all[k],
                        }),
                decreases regions@.len() - i,
            {
                result.push(
                    Constraint::SymbolRepartition {
                        tokenset: tokenset_index,
                        repartition: repartition_of(candidates),
                        region: regions[i].clone(),
                    },
                );
                i += 1;
            }
            let mut i: usize = 0;
            while i < rows.len()
                invariant
                    i <= rows@.len(),
                    rows@.len() == grid.rows,
                    forall|k: int| 0 <= k < rows@.len() ==> (#[trigger] rows@[k])@ == row_at(k, grid.columns as int),
                    all == sudoku_regions(rule.regions(), grid),
                    rule == (Rule::Sudoku { tokenset: tokenset_index, regions: *regions, givens: *givens }),
                    result@.len() == regions@.len() + i,
                    forall|k: int|
                        0 <= k < regions@.len() + i ==> (#[trigger] result@[k])@
                            == (ConstraintView::SymbolRepartition {
                            tokenset: tokenset_index,
                            repartition: once_each(candidates@),
                            region: all[k],
                        }),
                decreases rows@.len() - i,
            {
                result.push(
                    Constraint::SymbolRepartition {
                        tokenset: tokenset_index,
                        repartition: repartition_of(candidates),
                        region: rows[i].clone(),
                    },
                );
                i += 1;
            }
            let mut i: usize = 0;
            while i < columns.len()
                invariant
                    i <= columns@.len(),
                    columns@.len() == grid.columns,
                    forall|k: int|
                        0 <= k < columns@.len() ==> (#[trigger] columns@[k])@ == column_at(k, grid.rows as int),
                    all == sudoku_regions(rule.regions(), grid),
                    rule == (Rule::Sudoku { tokenset: tokenset_index, regions: *regions, givens: *givens }),
                    result@.len() == regions@.len() + grid.rows + i,
                    forall|k: int|
                        0 <= k < regions@.len() + grid.rows + i ==> (#[trigger] result@[k])@
                            == (ConstraintView::SymbolRepartition {
                            tokenset: tokenset_index,
                            repartition: once_each(candidates@),
                            region: all[k],
                        }),
                decreases columns@.len() - i,
            {
                result.push(
                    Constraint::SymbolRepartition {
                        tokenset: tokenset_index,
                        repartition: repartition_of(candidates),
                        region: columns[i].clone(),
                    },
                );
                i += 1;
            }
            let mut i: usize = 0;
            while i < givens.len()
                invariant
                    i <= givens@.len(),
                    all == sudoku_regions(rule.regions(), grid),
                    all.len() == regions@.len() + grid.rows + grid.columns,
                    rule == (Rule::Sudoku { tokenset: tokenset_index, regions: *regions, givens: *givens }),
                    result@.len() == all.len() + i,
                    forall|k: int|
                        0 <= k < all.len() ==> (#[trigger] result@[k])@ == (ConstraintView::SymbolRepartition {
                            tokenset: tokenset_index,
                            repartition: once_each(candidates@),
                            region: all[k],
                        }),
                    forall|k: int|
                        all.len() <= k < all.len() + i ==> (#[trigger] result@[k])@ == (ConstraintView::GivenSymbol {
                            tokenset: tokenset_index,
                            cell: givens@[k - all.len()].cell,
                            symbol: givens@[k - all.len()].symbol,
                        }),
                decreases givens@.len() - i,
            {
                let given = &givens[i];
                result.push(
                    Constraint::GivenSymbol { tokenset: tokenset_index, cell: given.cell, symbol: given.symbol },
                );
                i += 1;
            }
            proof {
                let expected = rule_constraints(setting, &rule);
                assert(expected is Ok);
                assert(rule.givens() == givens@);
                assert(rule.tokenset() == tokenset_index);
                assert(setting.tokensets@[tokenset_index as int].candidates() == candidates@);
                assert(expected->Ok_0.len() == result@.len());
                assert forall|k: int| 0 <= k < result@.len() implies views(result@)[k] == expected->Ok_0[k] by {
                    if k < all.len() {
                        assert(result@[k]@ == (ConstraintView::SymbolRepartition {
                            tokenset: tokenset_index,
                            repartition: once_each(candidates@),
                            region: all[k],
                        }));
                    } else {
                        assert(result@[k]@ == (ConstraintView::GivenSymbol {
                            tokenset: tokenset_index,
                            cell: givens@[k - all.len()].cell,
                            symbol: givens@[k - all.len()].symbol,
                        }));
                    }
                }
                assert(views(result@) =~= expected->Ok_0);
            }
            Ok(result)
        },
    }
}

/// Every candidate once, as a repartition.
fn repartition_of(candidates: &Vec<char>) -> (repartition: Vec<(char, usize)>)
    ensures
        repartition@ == once_each(candidates@),
{
    let mut repartition: Vec<(char, usize)> = Vec::new();
    let mut i: usize = 0;
    while i < candidates.len()
        invariant
            i <= candidates@.len(),
            repartition@ == once_each(candidates@.take(i as int)),
        decreases candidates@.len() - i,
    {
        repartition.push((candidates[i], 1));
        i += 1;
        assert(repartition@ =~= once_each(candidates@.take(i as int)));
    }
    assert(candidates@.take(i as int) =~= candidates@);
    repartition
}

} // verus!
