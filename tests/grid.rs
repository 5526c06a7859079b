use sudoku_solver::grid::SudokuGrid;

fn numbered() -> SudokuGrid {
    let values: Vec<u8> = (0..81).map(|i| i as u8).collect();
    SudokuGrid::from_data(values.as_slice())
}

#[test]
fn get_and_set_address_cells_row_major() {
    let mut grid = SudokuGrid::empty();
    grid.set(4, 2, 7);
    assert_eq!(grid.get(4, 2), 7);
    assert_eq!(grid.data[9 * 2 + 4], 7);
    assert_eq!(grid.get(2, 4), 0);
}

#[test]
fn get_outside_the_grid_is_zero() {
    let grid = numbered();
    assert_eq!(grid.get(9, 0), 0);
    assert_eq!(grid.get(0, 9), 0);
    assert_eq!(grid.get(100, 100), 0);
    assert_eq!(grid.get(8, 8), 80);
}

#[test]
fn projections_of_rows_columns_and_blocks() {
    let grid = numbered();
    assert_eq!(grid.row(1), vec![9, 10, 11, 12, 13, 14, 15, 16, 17]);
    assert_eq!(grid.column(2), vec![2, 11, 20, 29, 38, 47, 56, 65, 74]);
    assert_eq!(grid.group(4, 7), vec![57, 58, 59, 66, 67, 68, 75, 76, 77]);
    assert_eq!(grid.group(3, 6), grid.group(5, 8));
}

#[test]
fn placement_check_looks_at_row_column_and_block() {
    let grid = SudokuGrid::example_grid();
    // (2, 0) is free; 5 and 3 are in its row, 8 in its block, 1 nowhere near.
    assert!(!grid.check(2, 0, 5));
    assert!(!grid.check(2, 0, 8));
    assert!(!grid.check(2, 1, 6));
    assert!(grid.check(2, 0, 1));
    assert!(grid.check(2, 0, 4));
    // a cell's own value counts as present
    assert!(!grid.check(0, 0, 5));
}

#[test]
fn from_data_copies_values() {
    let values: Vec<u8> = (0..81).map(|i| (i % 10) as u8).collect();
    let grid = SudokuGrid::from_data(values.as_slice());
    assert_eq!(grid.data, values);
    assert!(!grid.is_empty());
    assert!(SudokuGrid::empty().data.iter().all(|&v| v == 0));
    assert_eq!(SudokuGrid::empty().data.len(), 81);
}

#[test]
fn clone_is_independent() {
    let grid = SudokuGrid::example_grid();
    let mut copy = grid.clone();
    copy.set(2, 0, 4);
    assert_eq!(copy.get(2, 0), 4);
    assert_eq!(grid.get(2, 0), 0);
}

#[test]
fn random_grids_hold_digits() {
    let mut rng = rand::thread_rng();
    let mut zeros = 0;
    let mut distinct = std::collections::HashSet::new();
    for _ in 0..20 {
        let grid = SudokuGrid::randomly_filled(&mut rng);
        assert_eq!(grid.data.len(), 81);
        for &v in grid.data.iter() {
            assert!(v <= 9);
            if v == 0 {
                zeros += 1;
            } else {
                distinct.insert(v);
            }
        }
    }
    assert!(zeros > 0);
    assert!(distinct.len() > 1);
}

#[test]
fn valid_random_is_valid_or_empty() {
    let mut rng = rand::thread_rng();
    for _ in 0..5 {
        let grid = SudokuGrid::valid_random(&mut rng);
        assert_eq!(grid.data.len(), 81);
        assert!(grid.check_grid() || grid.is_empty());
    }
}
