use sudoku_solver::grid::SudokuGrid;
use sudoku_solver::solver::{solve, SudokuSolvingError, MAX_ITERATIONS_DEFAULT};

#[test]
fn solve_sudoku1() {
    let values = vec![0, 6, 0, 0, 0, 0, 9, 7, 0, 0, 3, 0, 8, 0, 4, 0, 0, 0, 2, 0, 0, 5, 9, 0, 0, 0, 0, 0, 7, 0, 0, 4, 0, 6, 0, 0, 0, 0, 5, 0, 0, 0, 1, 0, 0, 0, 0, 6, 0, 3, 0, 0, 8, 0, 0, 0, 0, 0, 5, 9, 0, 0, 1, 0, 0, 0, 1, 0, 7, 0, 3, 0, 0, 8, 1, 0, 0, 0, 0, 6, 0];
    let grid = SudokuGrid::from_data(values.as_slice());
    let solved = {
        match solve(grid, MAX_ITERATIONS_DEFAULT) {
            Ok(grid) => grid,
            Err(err) => panic!("Couldn't solve the test sudoku 1: {}", err.message())
        }
    };
    let expected = vec![8, 6, 4, 3, 1, 2, 9, 7, 5, 5, 3, 9, 8, 7, 4, 2, 1, 6, 2, 1, 7, 5, 9, 6, 3, 4, 8, 3, 7, 8, 9, 4, 1, 6, 5, 2, 4, 2, 5, 7, 6, 8, 1, 9, 3, 1, 9, 6, 2, 3, 5, 7, 8, 4, 7, 4, 3, 6, 5, 9, 8, 2, 1, 6, 5, 2, 1, 8, 7, 4, 3, 9, 9, 8, 1, 4, 2, 3, 5, 6, 7];
    assert_eq!(solved.data, expected, "Expected grid and solved grid contents didn't match.")
}

fn is_permutation_of_digits(values: &[u8]) -> bool {
    let mut sorted = values.to_vec();
    sorted.sort();
    sorted == vec![1, 2, 3, 4, 5, 6, 7, 8, 9]
}

fn example_values() -> Vec<u8> {
    vec![
        5, 3, 0, 0, 7, 0, 0, 0, 0, 6, 0, 0, 1, 9, 5, 0, 0, 0, 0, 9, 8, 0, 0, 0, 0, 6, 0, 8, 0, 0,
        0, 6, 0, 0, 0, 3, 4, 0, 0, 8, 0, 3, 0, 0, 1, 7, 0, 0, 0, 2, 0, 0, 0, 6, 0, 6, 0, 0, 0, 0,
        2, 8, 0, 0, 0, 0, 4, 1, 9, 0, 0, 5, 0, 0, 0, 0, 8, 0, 0, 7, 9,
    ]
}

#[test]
fn example_puzzle_is_solved_into_permutations() {
    let grid = SudokuGrid::from_data(example_values().as_slice());
    let solved = solve(grid, 1_000_000).ok().expect("the example puzzle has a solution");
    for i in 0..9 {
        assert!(is_permutation_of_digits(&solved.row(i)));
        assert!(is_permutation_of_digits(&solved.column(i)));
    }
    for y in [0, 3, 6] {
        for x in [0, 3, 6] {
            assert!(is_permutation_of_digits(&solved.group(x, y)));
        }
    }
    assert!(solved.check_grid());
}

#[test]
fn example_grid_matches_literal_puzzle() {
    assert_eq!(SudokuGrid::example_grid().data, example_values());
}

#[test]
fn solution_keeps_presets() {
    let values = example_values();
    let solved = solve(SudokuGrid::from_data(values.as_slice()), MAX_ITERATIONS_DEFAULT)
        .ok()
        .expect("the example puzzle has a solution");
    for i in 0..81 {
        if values[i] != 0 {
            assert_eq!(solved.data[i], values[i]);
        }
    }
    assert!(solved.data.iter().all(|&v| v != 0));
}

#[test]
fn solving_a_copy_leaves_the_grid_unchanged() {
    let grid = SudokuGrid::example_grid();
    let before = grid.data.clone();
    let copy = grid.clone();
    assert!(solve(copy, MAX_ITERATIONS_DEFAULT).is_ok());
    assert_eq!(grid.data, before);
}

#[test]
fn two_fives_in_a_row_is_invalid() {
    let mut values = vec![0u8; 81];
    values[2] = 5;
    values[7] = 5;
    let grid = SudokuGrid::from_data(values.as_slice());
    assert!(!grid.check_grid());
    assert_eq!(solve(grid, MAX_ITERATIONS_DEFAULT).err(), Some(SudokuSolvingError::InvalidGrid));
}

#[test]
fn duplicate_in_column_or_block_is_invalid() {
    let mut column = vec![0u8; 81];
    column[9 * 1 + 4] = 3;
    column[9 * 7 + 4] = 3;
    assert_eq!(
        solve(SudokuGrid::from_data(column.as_slice()), MAX_ITERATIONS_DEFAULT).err(),
        Some(SudokuSolvingError::InvalidGrid)
    );
    let mut block = vec![0u8; 81];
    block[9 * 3 + 3] = 8;
    block[9 * 5 + 5] = 8;
    assert_eq!(
        solve(SudokuGrid::from_data(block.as_slice()), 1).err(),
        Some(SudokuSolvingError::InvalidGrid)
    );
}

#[test]
fn duplicate_in_last_row_is_invalid() {
    let mut values = vec![0u8; 81];
    values[9 * 8] = 4;
    values[9 * 8 + 8] = 4;
    assert!(!SudokuGrid::from_data(values.as_slice()).check_grid());
}

#[test]
fn empty_grid_is_invalid() {
    let grid = SudokuGrid::empty();
    assert!(grid.is_empty());
    assert!(!grid.check_grid());
    assert_eq!(solve(grid, MAX_ITERATIONS_DEFAULT).err(), Some(SudokuSolvingError::InvalidGrid));
}

#[test]
fn validity_check_is_repeatable() {
    let valid = SudokuGrid::example_grid();
    assert_eq!(valid.check_grid(), valid.check_grid());
    assert!(valid.check_grid());
    let mut values = example_values();
    values[1] = 5;
    let invalid = SudokuGrid::from_data(values.as_slice());
    assert_eq!(invalid.check_grid(), invalid.check_grid());
    assert!(!invalid.check_grid());
}

#[test]
fn single_iteration_budget_overflows() {
    let grid = SudokuGrid::example_grid();
    assert_eq!(solve(grid, 1).err(), Some(SudokuSolvingError::IterationCountOverflow));
    let values = vec![0, 6, 0, 0, 0, 0, 9, 7, 0, 0, 3, 0, 8, 0, 4, 0, 0, 0, 2, 0, 0, 5, 9, 0, 0, 0, 0, 0, 7, 0, 0, 4, 0, 6, 0, 0, 0, 0, 5, 0, 0, 0, 1, 0, 0, 0, 0, 6, 0, 3, 0, 0, 8, 0, 0, 0, 0, 0, 5, 9, 0, 0, 1, 0, 0, 0, 1, 0, 7, 0, 3, 0, 0, 8, 1, 0, 0, 0, 0, 6, 0];
    assert_eq!(
        solve(SudokuGrid::from_data(values.as_slice()), 1).err(),
        Some(SudokuSolvingError::IterationCountOverflow)
    );
    assert_eq!(
        solve(SudokuGrid::example_grid(), 0).err(),
        Some(SudokuSolvingError::IterationCountOverflow)
    );
}

#[test]
fn blocked_first_cell_is_unsolvable() {
    let mut values = vec![0u8; 81];
    for x in 1..9 {
        values[x] = x as u8;
    }
    values[9] = 9;
    let grid = SudokuGrid::from_data(values.as_slice());
    assert!(grid.check_grid());
    assert_eq!(solve(grid, MAX_ITERATIONS_DEFAULT).err(), Some(SudokuSolvingError::Unsolvable));
}

#[test]
fn contradiction_found_by_search_is_unsolvable() {
    // Row 0 leaves only 9 for its last cell, but column 8 already holds a 9.
    let mut values = vec![0u8; 81];
    for x in 0..8 {
        values[x] = x as u8 + 1;
    }
    values[9 * 4 + 8] = 9;
    let grid = SudokuGrid::from_data(values.as_slice());
    assert!(grid.check_grid());
    assert_eq!(solve(grid, MAX_ITERATIONS_DEFAULT).err(), Some(SudokuSolvingError::Unsolvable));
}

#[test]
fn error_messages() {
    assert_eq!(SudokuSolvingError::InvalidGrid.message(), "The supplied sudoku grid is invalid!");
    assert_eq!(SudokuSolvingError::Unsolvable.message(), "The supplied sudoku is unsolvable!");
    assert_eq!(
        SudokuSolvingError::IterationCountOverflow.message(),
        "The solving process was abnormally long and therefore interrupted."
    );
}
