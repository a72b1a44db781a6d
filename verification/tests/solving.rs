use exact_cover::settings::constraints::{list_constraints, Constraint};
use exact_cover::settings::presets::common::{chars_of, givens};
use exact_cover::settings::presets::sudoku;
use exact_cover::settings::puzzle_settings::PuzzleSetting;
use exact_cover::shapes::{Cell, Region};
use exact_cover::solving::apply_constraints::{apply_constraints, holds};
use exact_cover::solving::initialization::initialize;
use exact_cover::solving::solution_count::count_solutions;
use exact_cover::solving::strategies::list::HiddenTuples;
use exact_cover::solving::strategies::{Action, Category, Deduction, Solver, SolvingError, Strategy};
use exact_cover::solving::symbol_positions::{note, symbol_positions};
use exact_cover::states::{symbolset, CellState, State, Tokenset};
use itertools::Itertools;

fn lines(rows: [&str; 4]) -> Vec<String> {
    rows.iter().map(|row| row.to_string()).collect()
}

fn sample_setting(rows: [&str; 4]) -> PuzzleSetting {
    let mut setting = PuzzleSetting::default();
    let grid = setting.add_grid(4, 4);
    let regions = Region::grid_boxes(2, 2, 2, 2);
    let givens = givens(&lines(rows));
    sudoku::add_symbolset(&mut setting, grid, 4, regions, givens);
    setting
}

fn candidates(symbols: &str) -> CellState {
    CellState::Candidates(symbols.chars().collect())
}

fn one_line(cells: [&str; 4]) -> State {
    State { tokensets: vec![Tokenset::Symbols(vec![cells.iter().map(|symbols| candidates(symbols)).collect()])] }
}

fn line_region() -> Region {
    Region { cells: (0..4).map(|x| Cell(x, 0)).collect() }
}

fn line_constraints(region: &Region) -> Vec<Constraint> {
    vec![Constraint::SymbolRepartition {
        tokenset: 0,
        repartition: "1234".chars().map(|symbol| (symbol, 1)).collect(),
        region: region.clone(),
    }]
}

#[test]
fn apply_constraints_test_start_position() {
    let setting = sample_setting(["2...", "..3.", ".1..", "...."]);
    let constraints = list_constraints(&setting).unwrap();
    let mut state =
        State { tokensets: vec![symbolset(&lines(["2...", "..3.", ".1..", "...."]), candidates("1234"))] };
    apply_constraints(&mut state, &constraints);
    let tokensets = vec![Tokenset::Symbols(vec![
        vec![CellState::Fixed('2'), candidates("34"), candidates("14"), candidates("14")],
        vec![candidates("14"), candidates("4"), CellState::Fixed('3'), candidates("124")],
        vec![candidates("34"), CellState::Fixed('1'), candidates("24"), candidates("234")],
        vec![candidates("34"), candidates("234"), candidates("124"), candidates("1234")],
    ])];
    let expected = State { tokensets };
    assert_eq!(state, expected);
}

#[test]
fn initialization_test_nominal() {
    let setting = sample_setting(["5...", "..6.", ".1..", "...."]);
    let result = initialize(&setting).unwrap();
    let open = || CellState::Candidates(vec!['1', '2', '3', '4']);
    let tokensets = vec![Tokenset::Symbols(vec![
        vec![open(), open(), open(), open()],
        vec![open(), open(), open(), open()],
        vec![open(), open(), open(), open()],
        vec![open(), open(), open(), open()],
    ])];
    let expected = State { tokensets };
    assert_eq!(result, expected);
}

#[test]
fn test_finished_position() {
    let grid = vec!["2...".to_string(), "..3.".to_string(), ".1..".to_string(), "...4".to_string()];
    let setting = sudoku::setting(2, &grid);
    let mut state = State { tokensets: vec![symbolset(&grid, CellState::Candidates("1234".chars().collect()))] };
    let result = count_solutions(&setting, &mut state).unwrap();
    assert_eq!(result, 1);
}

#[test]
fn solution_count_test_start_position() {
    let grid = vec!["2...".to_string(), "..3.".to_string(), ".1..".to_string(), "...4".to_string()];
    let setting = sudoku::setting(2, &grid);
    let mut state = State { tokensets: vec![symbolset(&grid, CellState::Empty)] };
    let starting_state = state.clone();
    let result = count_solutions(&setting, &mut state).unwrap();
    assert_eq!(result, 1);
    assert_eq!(state, starting_state);
}

#[test]
fn a_broken_position_has_no_solution() {
    let grid = vec!["22..".to_string(), "....".to_string(), "....".to_string(), "....".to_string()];
    let setting = sudoku::setting(2, &grid);
    let mut state = State { tokensets: vec![symbolset(&grid, CellState::Empty)] };
    assert_eq!(count_solutions(&setting, &mut state), Ok(0));
}

#[test]
fn a_filled_position_counts_once() {
    let grid = vec!["2314".to_string(), "1432".to_string(), "4123".to_string(), "3241".to_string()];
    let setting = sudoku::setting(2, &grid);
    let mut state = State { tokensets: vec![symbolset(&grid, CellState::Empty)] };
    assert_eq!(count_solutions(&setting, &mut state), Ok(1));
}

#[test]
fn two_open_cells_two_ways() {
    let mut setting = PuzzleSetting::default();
    let grid = setting.add_grid(2, 2);
    sudoku::add_symbolset(&mut setting, grid, 2, vec![], vec![]);
    let mut state =
        State { tokensets: vec![symbolset(&["..".to_string(), "..".to_string()], CellState::Empty)] };
    assert_eq!(count_solutions(&setting, &mut state), Ok(2));
}

#[test]
fn test_hidden_pair() {
    let state = one_line(["134", "234", "12", "12"]);
    let region = line_region();
    let constraints = line_constraints(&region);

    let technique = HiddenTuples::with_fixed_size(2);
    let mut result = technique.search(&constraints, &state).unwrap();
    assert_eq!(result.len(), 1);
    let deduction = &mut result[0];

    deduction.actions.sort();
    let expected_actions = vec![
        Action::RemoveSymbolCandidate { tokenset: 0, cell: Cell(0, 0), symbol: '1' },
        Action::RemoveSymbolCandidate { tokenset: 0, cell: Cell(1, 0), symbol: '2' },
    ];
    assert_eq!(deduction.actions, expected_actions);

    let Category::HiddenTuple { symbols, region: found_region, positions } = &deduction.category;
    let mut positions = positions.clone();
    positions.sort();
    assert_eq!(positions, vec![Cell(0, 0), Cell(1, 0)]);
    assert_eq!(*found_region, region);
    assert_eq!(*symbols.chars().sorted().join(""), "34".to_string());
}

#[test]
fn test_hidden_single() {
    let state = one_line(["124", "1234", "124", "124"]);
    let region = line_region();
    let constraints = line_constraints(&region);

    let technique = HiddenTuples::with_fixed_size(1);
    let result = technique.search(&constraints, &state).unwrap();
    let expected = vec![Deduction {
        category: Category::HiddenTuple { symbols: "3".to_string(), region, positions: vec![Cell(1, 0)] },
        actions: vec![Action::SetSymbol { tokenset: 0, cell: Cell(1, 0), symbol: '3' }],
    }];
    assert_eq!(result, expected);
}

#[test]
fn test_no_results() {
    let state = one_line(["12", "23", "34", "14"]);
    let region = line_region();
    let constraints = line_constraints(&region);

    let technique = HiddenTuples::with_min_size(1);
    let result = technique.search(&constraints, &state).unwrap();
    let expected = vec![];
    assert_eq!(result, expected);
}

#[test]
fn too_few_cells_for_a_group_end_the_search() {
    let state = one_line(["12", "12", "12", "12"]);
    let region = line_region();
    let constraints = vec![Constraint::SymbolRepartition {
        tokenset: 0,
        repartition: vec![('1', 3), ('2', 3)],
        region: region.clone(),
    }];
    let technique = HiddenTuples::with_fixed_size(1);
    assert_eq!(technique.search(&constraints, &state), Ok(vec![]));
    let state = one_line(["1", "1", "3", "3"]);
    assert_eq!(technique.search(&constraints, &state), Err(SolvingError::NotEnoughCandidates));
    assert_eq!(SolvingError::NotEnoughCandidates.message(), "Not enough candidates");
}

#[test]
fn groups_come_in_the_order_of_the_places_picked() {
    let state = one_line(["ab", "ab", "cd", "cd"]);
    let region = line_region();
    let constraints = vec![Constraint::SymbolRepartition {
        tokenset: 0,
        repartition: "abcd".chars().map(|symbol| (symbol, 1)).collect(),
        region: region.clone(),
    }];
    let state_with_more = State {
        tokensets: vec![Tokenset::Symbols(vec![vec![
            candidates("abx"),
            candidates("ab"),
            candidates("cdy"),
            candidates("cd"),
        ]])],
    };
    assert_eq!(HiddenTuples::with_fixed_size(2).search(&constraints, &state), Ok(vec![]));
    let found = HiddenTuples::with_fixed_size(2).search(&constraints, &state_with_more).unwrap();
    let symbols: Vec<String> = found
        .iter()
        .map(|deduction| {
            let Category::HiddenTuple { symbols, .. } = &deduction.category;
            symbols.clone()
        })
        .collect();
    assert_eq!(symbols, vec!["ab".to_string(), "cd".to_string()]);
    assert_eq!(
        found[0].actions,
        vec![Action::RemoveSymbolCandidate { tokenset: 0, cell: Cell(0, 0), symbol: 'x' }]
    );
    assert_eq!(
        found[1].actions,
        vec![Action::RemoveSymbolCandidate { tokenset: 0, cell: Cell(2, 0), symbol: 'y' }]
    );
}

#[test]
fn the_solver_stops_at_the_first_strategy_that_finds_something() {
    let solver = Solver::default();
    let region = line_region();
    let constraints = line_constraints(&region);
    let state = one_line(["134", "234", "12", "12"]);
    let found = solver.iterate(&constraints, &state).unwrap();
    assert_eq!(found.len(), 1);
    let Category::HiddenTuple { symbols, .. } = &found[0].category;
    assert_eq!(symbols, "34");
    let state = one_line(["12", "23", "34", "14"]);
    assert_eq!(solver.iterate(&constraints, &state), Ok(vec![]));
}

#[test]
fn symbol_positions_test_nominal() {
    let cells = vec![
        vec![CellState::Fixed('a'), candidates("bc"), CellState::Fixed('a'), candidates("ef")],
        vec![candidates("gh"), candidates("ej"), CellState::Fixed('k'), CellState::Fixed('l')],
    ];
    let region = Region { cells: vec![Cell(0, 0), Cell(2, 0), Cell(3, 0), Cell(1, 1), Cell(2, 1)] };

    let (set, candidates) = symbol_positions(&cells, &region);
    let expected_set = vec![('a', vec![Cell(0, 0), Cell(2, 0)]), ('k', vec![Cell(2, 1)])];
    let expected_candidates =
        vec![('e', vec![Cell(3, 0), Cell(1, 1)]), ('f', vec![Cell(3, 0)]), ('j', vec![Cell(1, 1)])];
    assert_eq!(set, expected_set);
    assert_eq!(candidates, expected_candidates);
}

#[test]
fn a_cell_is_noted_once_for_a_symbol() {
    let mut map = Vec::new();
    note(&mut map, 'a', &Cell(1, 1));
    note(&mut map, 'b', &Cell(1, 1));
    note(&mut map, 'a', &Cell(1, 1));
    note(&mut map, 'a', &Cell(0, 1));
    assert_eq!(map, vec![('a', vec![Cell(1, 1), Cell(0, 1)]), ('b', vec![Cell(1, 1)])]);
}

#[test]
fn holds_finds_a_symbol() {
    assert!(holds(&chars_of("abc"), 'c'));
    assert!(!holds(&chars_of("abc"), 'd'));
}
