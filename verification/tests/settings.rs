use exact_cover::settings::constraints::{list_constraints, Constraint, SettingError};
use exact_cover::settings::presets::common::{chars_of, givens};
use exact_cover::settings::presets::sudoku;
use exact_cover::settings::puzzle_settings::PuzzleSetting;
use exact_cover::settings::rules::{GivenSymbol, Rule};
use exact_cover::settings::tokens::TokenSet;
use exact_cover::settings::Grid;
use exact_cover::shapes::{Cell, Region};

#[test]
fn test_sudoku() {
    let mut setting = PuzzleSetting::default();
    let grid = setting.add_grid(4, 4);
    let regions = Region::grid_boxes(2, 2, 2, 2);
    let givens = givens(&["5...".to_string(), "..6.".to_string(), ".1..".to_string(), "....".to_string()]);
    sudoku::add_symbolset(&mut setting, grid, 4, regions, givens);

    let result = list_constraints(&setting).unwrap();

    let repartition = vec![('1', 1), ('2', 1), ('3', 1), ('4', 1)];
    let mut expected = Vec::new();
    for region in Region::grid_boxes(2, 2, 2, 2) {
        expected.push(Constraint::SymbolRepartition { tokenset: 0, repartition: repartition.clone(), region });
    }
    for region in Region::rows(4, 4) {
        expected.push(Constraint::SymbolRepartition { tokenset: 0, repartition: repartition.clone(), region });
    }
    for region in Region::columns(4, 4) {
        expected.push(Constraint::SymbolRepartition { tokenset: 0, repartition: repartition.clone(), region });
    }
    expected.push(Constraint::GivenSymbol { tokenset: 0, cell: Cell(0, 0), symbol: '5' });
    expected.push(Constraint::GivenSymbol { tokenset: 0, cell: Cell(2, 1), symbol: '6' });
    expected.push(Constraint::GivenSymbol { tokenset: 0, cell: Cell(1, 2), symbol: '1' });

    assert_eq!(result, expected);
}

#[test]
fn givens_skip_dots_and_spaces() {
    let result = givens(&["a. b".to_string(), "".to_string(), " c".to_string()]);
    assert_eq!(
        result,
        vec![
            GivenSymbol { symbol: 'a', cell: Cell(0, 0) },
            GivenSymbol { symbol: 'b', cell: Cell(3, 0) },
            GivenSymbol { symbol: 'c', cell: Cell(1, 2) },
        ]
    );
}

#[test]
fn chars_of_keeps_every_character() {
    assert_eq!(chars_of("a.é"), vec!['a', '.', 'é']);
    assert_eq!(chars_of(""), Vec::<char>::new());
}

#[test]
fn unknown_tokenset_is_reported() {
    let mut setting = PuzzleSetting::default();
    setting.add_grid(2, 2);
    setting.rules.push(Rule::Sudoku { tokenset: 3, regions: vec![], givens: vec![] });
    assert_eq!(list_constraints(&setting), Err(SettingError::TokensetOutOfRange));
    assert_eq!(SettingError::TokensetOutOfRange.message(), "tokenset index out of range");
}

#[test]
fn unknown_grid_is_reported() {
    let mut setting = PuzzleSetting::default();
    let tokenset = setting.add_symbolset(TokenSet::Symbols { grid: 1, candidates: vec!['1'] });
    setting.rules.push(Rule::Sudoku { tokenset, regions: vec![], givens: vec![] });
    assert_eq!(list_constraints(&setting), Err(SettingError::GridOutOfRange));
    assert_eq!(SettingError::GridOutOfRange.message(), "grid index out of range");
}

#[test]
fn the_first_rule_that_fails_decides() {
    let mut setting = PuzzleSetting::default();
    let tokenset = setting.add_symbolset(TokenSet::Symbols { grid: 1, candidates: vec!['1'] });
    setting.rules.push(Rule::Sudoku { tokenset, regions: vec![], givens: vec![] });
    setting.rules.push(Rule::Sudoku { tokenset: 9, regions: vec![], givens: vec![] });
    assert_eq!(list_constraints(&setting), Err(SettingError::GridOutOfRange));
}

#[test]
fn no_rules_no_constraints() {
    let setting = PuzzleSetting::default();
    assert_eq!(list_constraints(&setting), Ok(vec![]));
}

#[test]
fn sudoku_setting_counts_its_digits() {
    let lines = vec!["2...".to_string(), "..3.".to_string(), ".1..".to_string(), "...4".to_string()];
    let setting = sudoku::setting(2, &lines);
    assert_eq!(setting.grids, vec![Grid { rows: 4, columns: 4 }]);
    assert_eq!(setting.tokensets.len(), 1);
    let TokenSet::Symbols { grid, candidates } = &setting.tokensets[0];
    assert_eq!(*grid, 0);
    assert_eq!(*candidates, vec!['1', '2', '3', '4']);
    assert_eq!(setting.rules.len(), 1);
    let Rule::Sudoku { tokenset, regions, givens } = &setting.rules[0];
    assert_eq!(*tokenset, 0);
    assert_eq!(*regions, Region::grid_boxes(2, 2, 2, 2));
    assert_eq!(givens.len(), 4);
}

#[test]
fn digits_past_nine_are_written_in_decimal() {
    let mut setting = PuzzleSetting::default();
    let grid = setting.add_grid(11, 11);
    let index = sudoku::add_symbolset(&mut setting, grid, 11, vec![], vec![]);
    assert_eq!(index, 0);
    let TokenSet::Symbols { candidates, .. } = &setting.tokensets[0];
    assert_eq!(*candidates, chars_of("1234567891011"));
}
