use sudoku::error::SudokuError;
use sudoku::solver::Sudoku;

const FIELD_1: [[u8; 9]; 9] = [
    [0, 0, 0, 0, 6, 0, 5, 0, 0],
    [0, 0, 2, 0, 0, 0, 0, 0, 4],
    [0, 1, 0, 3, 0, 0, 0, 9, 0],
    [0, 3, 4, 5, 0, 0, 0, 0, 6],
    [0, 0, 0, 0, 0, 0, 0, 0, 0],
    [2, 0, 0, 0, 0, 9, 8, 1, 0],
    [0, 5, 0, 0, 0, 8, 0, 3, 0],
    [3, 0, 0, 0, 0, 0, 9, 0, 0],
    [0, 0, 6, 0, 1, 0, 0, 0, 0],
];

const SOLVED_FIELD: [[u8; 9]; 9] = [
    [1, 2, 3, 4, 5, 6, 7, 8, 9],
    [4, 5, 6, 7, 8, 9, 1, 2, 3],
    [7, 8, 9, 1, 2, 3, 4, 5, 6],
    [2, 3, 4, 5, 6, 7, 8, 9, 1],
    [5, 6, 7, 8, 9, 1, 2, 3, 4],
    [8, 9, 1, 2, 3, 4, 5, 6, 7],
    [3, 4, 5, 6, 7, 8, 9, 1, 2],
    [6, 7, 8, 9, 1, 2, 3, 4, 5],
    [9, 1, 2, 3, 4, 5, 6, 7, 8],
];

#[test]
fn test_new() {
    let sudoku = Sudoku::new(&FIELD_1).unwrap();
    assert_eq!(sudoku.value(0, 0), None);
    assert_eq!(sudoku.value(0, 4), Some(6));
    assert_eq!(sudoku.value(3, 1), Some(3));
    assert_eq!(sudoku.value(8, 8), None);
}

#[test]
fn test_determine() {
    let mut sudoku = Sudoku::new(&FIELD_1).unwrap();
    sudoku.determine(0, 0, 1);

    assert_eq!(sudoku.value(0, 0), Some(1));
    assert_eq!(sudoku.cell_options(0, 0), vec![]);
}

#[test]
fn test_is_solved() {
    let sudoku = Sudoku::new(&SOLVED_FIELD).unwrap();

    assert!(sudoku.is_solved());
}

#[test]
fn test_update_options() {
    let mut sudoku = Sudoku::new(&FIELD_1).unwrap();
    sudoku.update_options();

    assert_eq!(sudoku.cell_options(1, 6), vec![1, 3, 6, 7]);
    assert_eq!(sudoku.cell_options(4, 8), vec![2, 3, 5, 7, 9]);
    assert_eq!(sudoku.cell_options(6, 1), vec![]);
}

#[test]
fn test_apply_row_reduction() {
    let mut sudoku = Sudoku::new(&FIELD_1).unwrap();
    sudoku.update_options();
    sudoku.apply_row_reduction();

    assert_eq!(sudoku.value(1, 6), Some(3));
    assert_eq!(sudoku.value(3, 0), Some(9));
    assert_eq!(sudoku.value(4, 4), None);
}

#[test]
fn test_apply_column_reduction() {
    let mut sudoku = Sudoku::new(&FIELD_1).unwrap();
    sudoku.update_options();
    sudoku.apply_row_reduction();

    sudoku.update_options();
    sudoku.apply_column_reduction();

    assert_eq!(sudoku.value(0, 2), Some(3));
    assert_eq!(sudoku.value(4, 8), Some(9));
    assert_eq!(sudoku.value(6, 6), Some(1));
    assert_eq!(sudoku.value(5, 8), None);
    assert_eq!(sudoku.value(6, 2), None);
    assert_eq!(sudoku.value(0, 5), None);
}

#[test]
fn test_apply_box_reduction() {
    let mut sudoku = Sudoku::new(&FIELD_1).unwrap();
    sudoku.update_options();
    sudoku.apply_row_reduction();

    sudoku.update_options();
    sudoku.apply_column_reduction();

    sudoku.update_options();
    sudoku.apply_box_reduction();

    assert_eq!(sudoku.value(0, 8), Some(1));
    assert_eq!(sudoku.value(5, 8), Some(3));
    assert_eq!(sudoku.value(7, 7), Some(6));
    assert_eq!(sudoku.value(4, 7), None);
    assert_eq!(sudoku.value(3, 6), None);
}

#[test]
fn test_solve() {
    let mut sudoku = Sudoku::new(&FIELD_1).unwrap();
    sudoku.step().unwrap();
}

#[test]
fn test_new_rejects_out_of_range_value() {
    let mut field = [[0u8; 9]; 9];
    field[2][5] = 10;
    let r = Sudoku::new(&field);
    assert!(matches!(
        r,
        Err(SudokuError::InvalidInputValue { y: 2, x: 5, value: 10 })
    ));
}

#[test]
fn test_new_reports_first_offending_cell() {
    let mut field = [[0u8; 9]; 9];
    field[7][1] = 200;
    field[4][8] = 12;
    let r = Sudoku::new(&field);
    assert!(matches!(
        r,
        Err(SudokuError::InvalidInputValue { y: 4, x: 8, value: 12 })
    ));
}

#[test]
fn test_new_all_zero_grid_is_all_undetermined() {
    let field = [[0u8; 9]; 9];
    let sudoku = Sudoku::new(&field).unwrap();
    for y in 0..9 {
        for x in 0..9 {
            assert_eq!(sudoku.value(y, x), None);
        }
    }
}

#[test]
fn test_step_on_solved_grid_returns_zero() {
    let mut sudoku = Sudoku::new(&SOLVED_FIELD).unwrap();
    assert_eq!(sudoku.step().unwrap(), 0);
}

#[test]
fn test_solve_fills_last_missing_cell() {
    let mut field = SOLVED_FIELD;
    field[0][0] = 0;
    let mut sudoku = Sudoku::new(&field).unwrap();
    assert_eq!(sudoku.solve(), Ok(()));
    assert_eq!(sudoku.value(0, 0), Some(1));
    assert!(sudoku.is_solved());
}

#[test]
fn test_solve_empty_grid_stalls() {
    let field = [[0u8; 9]; 9];
    let mut sudoku = Sudoku::new(&field).unwrap();
    assert_eq!(sudoku.solve(), Err(SudokuError::UnsolvableSudoku));
    assert_eq!(sudoku.value(4, 4), None);
}

#[test]
fn test_step_makes_progress_and_keeps_determined_cells() {
    let mut sudoku = Sudoku::new(&FIELD_1).unwrap();
    let mut before = Vec::new();
    for y in 0..9 {
        for x in 0..9 {
            before.push(sudoku.value(y, x));
        }
    }
    let progress = sudoku.step().unwrap();
    assert!(progress > 0);
    for y in 0..9 {
        for x in 0..9 {
            if let Some(v) = before[y * 9 + x] {
                assert_eq!(sudoku.value(y, x), Some(v));
            }
        }
    }
    assert_eq!(sudoku.value(1, 6), Some(3));
    assert_eq!(sudoku.value(4, 4), None);
}

#[test]
fn test_update_options_is_idempotent() {
    let mut sudoku = Sudoku::new(&FIELD_1).unwrap();
    sudoku.update_options();
    let mut first = Vec::new();
    for y in 0..9 {
        for x in 0..9 {
            first.push(sudoku.cell_options(y, x));
        }
    }
    sudoku.update_options();
    for y in 0..9 {
        for x in 0..9 {
            assert_eq!(sudoku.cell_options(y, x), first[y * 9 + x]);
        }
    }
}

#[test]
fn test_stepping_terminates_within_81_invocations() {
    let mut sudoku = Sudoku::new(&FIELD_1).unwrap();
    let mut steps = 0;
    loop {
        steps += 1;
        assert!(steps <= 81);
        match sudoku.step() {
            Ok(0) => break,
            Ok(_) => continue,
            Err(SudokuError::UnsolvableSudoku) => break,
            Err(e) => panic!("unexpected error: {:?}", e),
        }
    }
}
