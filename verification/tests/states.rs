use exact_cover::settings::constraints::{list_constraints, Constraint};
use exact_cover::settings::presets::common::{chars_of, givens};
use exact_cover::settings::presets::sudoku;
use exact_cover::settings::puzzle_settings::PuzzleSetting;
use exact_cover::shapes::{Cell, Region};
use exact_cover::states::apply_constraints::apply_constraints;
use exact_cover::states::initialization::{initialize, Purpose};
use exact_cover::states::status::{compute_status, count_symbol, Status};
use exact_cover::states::{symbolset, CellState, State, Tokenset};

fn lines(rows: [&str; 4]) -> Vec<String> {
    rows.iter().map(|row| row.to_string()).collect()
}

fn sample_setting() -> PuzzleSetting {
    let mut setting = PuzzleSetting::default();
    let grid = setting.add_grid(4, 4);
    let regions = Region::grid_boxes(2, 2, 2, 2);
    let givens = givens(&lines(["2...", "..3.", ".1..", "...."]));
    sudoku::add_symbolset(&mut setting, grid, 4, regions, givens);
    setting
}

fn five_six_one() -> PuzzleSetting {
    let mut setting = PuzzleSetting::default();
    let grid = setting.add_grid(4, 4);
    let regions = Region::grid_boxes(2, 2, 2, 2);
    let givens = givens(&lines(["5...", "..6.", ".1..", "...."]));
    sudoku::add_symbolset(&mut setting, grid, 4, regions, givens);
    setting
}

fn expected_symbolset() -> Tokenset {
    Tokenset::Symbols(vec![
        vec![CellState::Fixed('1'), CellState::Fixed('2'), CellState::Empty, CellState::Empty],
        vec![CellState::Empty, CellState::Fixed('1'), CellState::Empty, CellState::Empty],
        vec![CellState::Empty, CellState::Empty, CellState::Empty, CellState::Empty],
        vec![CellState::Fixed('4'), CellState::Fixed('5'), CellState::Fixed('6'), CellState::Fixed('7')],
    ])
}

#[test]
fn states_test_symbolset() {
    let grid = vec!["12..".to_string(), ".1..".to_string(), "....".to_string(), "4567".to_string()];
    let result = symbolset(&grid, CellState::Empty);
    assert_eq!(result, expected_symbolset());
}

#[test]
fn tokensets_test_symbolset() {
    let grid = ["12..".to_string(), ".1..".to_string(), "....".to_string(), "4567".to_string()];
    let result = symbolset(&grid, CellState::Empty);
    assert_eq!(result, expected_symbolset());
}

#[test]
fn symbolset_fills_blanks_with_the_default() {
    let result = symbolset(&["a ".to_string()], CellState::Candidates(vec!['x', 'y']));
    assert_eq!(result, Tokenset::Symbols(vec![vec![CellState::Fixed('a'), CellState::Candidates(vec!['x', 'y'])]]));
}

#[test]
fn test_nominal_solving() {
    let setting = five_six_one();
    let result = initialize(&setting, Purpose::Solving).unwrap();
    let candidates = CellState::Candidates(chars_of("1234"));
    let tokensets = vec![Tokenset::Symbols(vec![
        vec![CellState::Fixed('5'), candidates.clone(), candidates.clone(), candidates.clone()],
        vec![candidates.clone(), candidates.clone(), CellState::Fixed('6'), candidates.clone()],
        vec![candidates.clone(), CellState::Fixed('1'), candidates.clone(), candidates.clone()],
        vec![candidates.clone(), candidates.clone(), candidates.clone(), candidates.clone()],
    ])];
    let expected = State { tokensets };
    assert_eq!(result, expected);
}

#[test]
fn test_nominal_playing() {
    let setting = five_six_one();
    let result = initialize(&setting, Purpose::Playing).unwrap();
    let tokensets = vec![Tokenset::Symbols(vec![
        vec![CellState::Fixed('5'), CellState::Empty, CellState::Empty, CellState::Empty],
        vec![CellState::Empty, CellState::Empty, CellState::Fixed('6'), CellState::Empty],
        vec![CellState::Empty, CellState::Fixed('1'), CellState::Empty, CellState::Empty],
        vec![CellState::Empty, CellState::Empty, CellState::Empty, CellState::Empty],
    ])];
    let expected = State { tokensets };
    assert_eq!(result, expected);
}

#[test]
fn status_test_start_position() {
    let setting = sample_setting();
    let constraints = list_constraints(&setting).unwrap();
    let state = State { tokensets: vec![symbolset(&lines(["2...", "..3.", ".1..", "...."]), CellState::Empty)] };
    let result = compute_status(&state, &constraints).unwrap();
    assert_eq!(result, Status::Ongoing);
}

#[test]
fn test_invalid_given() {
    let setting = sample_setting();
    let constraints = list_constraints(&setting).unwrap();
    let state = State { tokensets: vec![symbolset(&lines(["2...", "..4.", ".1..", "...."]), CellState::Empty)] };
    let result = compute_status(&state, &constraints).unwrap();
    assert_eq!(result, Status::Invalid);
}

#[test]
fn test_repartition() {
    let setting = sample_setting();
    let constraints = list_constraints(&setting).unwrap();
    let state = State { tokensets: vec![symbolset(&lines(["2...", "..4.", ".1..", "1..."]), CellState::Empty)] };
    let result = compute_status(&state, &constraints).unwrap();
    assert_eq!(result, Status::Invalid);
}

#[test]
fn test_finished() {
    let setting = sample_setting();
    let constraints = list_constraints(&setting).unwrap();
    let state = State { tokensets: vec![symbolset(&lines(["2314", "1432", "4123", "3241"]), CellState::Empty)] };
    let result = compute_status(&state, &constraints).unwrap();
    assert_eq!(result, Status::Valid);
}

#[test]
fn status_without_constraints_is_valid() {
    let state = State { tokensets: vec![] };
    assert_eq!(compute_status(&state, &[]), Ok(Status::Valid));
}

#[test]
fn count_symbol_counts_fixed_cells_only() {
    let Tokenset::Symbols(cells) = symbolset(&lines(["aa.a", "    ", "    ", "    "]), CellState::Candidates(vec!['a']))
    else {
        unreachable!()
    };
    let region = Region { cells: vec![Cell(0, 0), Cell(1, 0), Cell(2, 0), Cell(3, 0), Cell(0, 1)] };
    assert_eq!(count_symbol(&cells, &region, 'a'), 3);
    assert_eq!(count_symbol(&cells, &region, 'b'), 0);
}

#[test]
fn apply_constraints_sets_the_givens_in_order() {
    let mut state = State { tokensets: vec![symbolset(&lines(["....", "....", "....", "...."]), CellState::Empty)] };
    let constraints = vec![
        Constraint::GivenSymbol { tokenset: 0, cell: Cell(1, 0), symbol: 'x' },
        Constraint::SymbolRepartition { tokenset: 0, repartition: vec![('x', 1)], region: Region { cells: vec![] } },
        Constraint::GivenSymbol { tokenset: 0, cell: Cell(1, 0), symbol: 'y' },
        Constraint::GivenSymbol { tokenset: 0, cell: Cell(0, 3), symbol: 'z' },
    ];
    apply_constraints(&mut state, &constraints);
    let expected = State { tokensets: vec![symbolset(&lines([".y..", "....", "....", "z..."]), CellState::Empty)] };
    assert_eq!(state, expected);
}
