use exact_cover::shapes::cells::{Cell, DirectionGenerator};
use exact_cover::shapes::regions::Region;

#[test]
fn test_rows_nominal() {
    let mut result = Region::rows(3, 3);
    let mut expected = vec![
        Region { cells: vec![Cell(0, 0), Cell(1, 0), Cell(2, 0)] },
        Region { cells: vec![Cell(0, 1), Cell(1, 1), Cell(2, 1)] },
        Region { cells: vec![Cell(0, 2), Cell(1, 2), Cell(2, 2)] },
    ];
    result.sort();
    expected.sort();
    assert_eq!(result, expected);
}

#[test]
fn test_columns_nominal() {
    let mut result = Region::columns(3, 3);
    let mut expected = vec![
        Region { cells: vec![Cell(0, 0), Cell(0, 1), Cell(0, 2)] },
        Region { cells: vec![Cell(1, 0), Cell(1, 1), Cell(1, 2)] },
        Region { cells: vec![Cell(2, 0), Cell(2, 1), Cell(2, 2)] },
    ];
    result.sort();
    expected.sort();
    assert_eq!(result, expected);
}

#[test]
fn test_boxes_nominal() {
    let mut result = Region::grid_boxes(2, 2, 2, 2);
    let mut expected = vec![
        Region { cells: vec![Cell(0, 0), Cell(0, 1), Cell(1, 0), Cell(1, 1)] },
        Region { cells: vec![Cell(2, 0), Cell(2, 1), Cell(3, 0), Cell(3, 1)] },
        Region { cells: vec![Cell(0, 2), Cell(0, 3), Cell(1, 2), Cell(1, 3)] },
        Region { cells: vec![Cell(2, 2), Cell(2, 3), Cell(3, 2), Cell(3, 3)] },
    ];
    result.sort();
    expected.sort();
    assert_eq!(result, expected);
}

#[test]
fn boxes_come_row_of_boxes_after_row_of_boxes() {
    let result = Region::grid_boxes(2, 1, 2, 3);
    assert_eq!(
        result,
        vec![
            Region { cells: vec![Cell(0, 0), Cell(0, 1), Cell(0, 2), Cell(1, 0), Cell(1, 1), Cell(1, 2)] },
            Region { cells: vec![Cell(2, 0), Cell(2, 1), Cell(2, 2), Cell(3, 0), Cell(3, 1), Cell(3, 2)] },
        ]
    );
}

#[test]
fn offset_boxes_take_one_cell_of_each_box() {
    let result = Region::offset_boxes(2, 2, 2, 2);
    assert_eq!(
        result,
        vec![
            Region { cells: vec![Cell(0, 0), Cell(0, 2), Cell(2, 0), Cell(2, 2)] },
            Region { cells: vec![Cell(1, 0), Cell(1, 2), Cell(3, 0), Cell(3, 2)] },
            Region { cells: vec![Cell(0, 1), Cell(0, 3), Cell(2, 1), Cell(2, 3)] },
            Region { cells: vec![Cell(1, 1), Cell(1, 3), Cell(3, 1), Cell(3, 3)] },
        ]
    );
}

#[test]
fn diagonals_run_from_the_top_corners() {
    assert_eq!(Region::diagonal(3), Region { cells: vec![Cell(0, 0), Cell(1, 1), Cell(2, 2)] });
    assert_eq!(Region::reverse_diagonal(3), Region { cells: vec![Cell(2, 0), Cell(1, 1), Cell(0, 2)] });
    assert_eq!(Region::diagonal(0), Region { cells: vec![] });
}

#[test]
fn region_clone_keeps_the_cells() {
    let region = Region { cells: vec![Cell(4, 5), Cell(-1, 7)] };
    assert_eq!(region.clone(), region);
}

#[test]
fn directions_turn_three_times() {
    let mut generator = DirectionGenerator::new(1, 2, 2);
    let mut moves = Vec::new();
    while let Some(step) = generator.next() {
        moves.push(step);
    }
    assert_eq!(moves, vec![Cell(2, -1), Cell(4, -2), Cell(-1, -2), Cell(-2, -4), Cell(-2, 1), Cell(-4, 2)]);
}

#[test]
fn directions_without_multiples_give_one_step_each() {
    let mut generator = DirectionGenerator::new(1, 0, 0);
    assert_eq!(generator.next(), Some(Cell(0, -1)));
    assert_eq!(generator.next(), Some(Cell(-1, 0)));
    assert_eq!(generator.next(), Some(Cell(0, 1)));
    assert_eq!(generator.next(), None);
}
