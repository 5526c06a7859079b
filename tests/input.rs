use sudoku_solver::input::{grid_from_argument, grid_values};

fn puzzle_text() -> String {
    let values = [
        5, 3, 0, 0, 7, 0, 0, 0, 0, 6, 0, 0, 1, 9, 5, 0, 0, 0, 0, 9, 8, 0, 0, 0, 0, 6, 0, 8, 0, 0,
        0, 6, 0, 0, 0, 3, 4, 0, 0, 8, 0, 3, 0, 0, 1, 7, 0, 0, 0, 2, 0, 0, 0, 6, 0, 6, 0, 0, 0, 0,
        2, 8, 0, 0, 0, 0, 4, 1, 9, 0, 0, 5, 0, 0, 0, 0, 8, 0, 0, 7, 9,
    ];
    values.iter().map(|v| v.to_string()).collect::<Vec<_>>().join(",")
}

#[test]
fn inline_data_gives_the_grid() {
    let grid = grid_from_argument(&puzzle_text(), None).expect("81 values");
    assert_eq!(grid.data.len(), 81);
    assert_eq!(&grid.data[0..9], &[5, 3, 0, 0, 7, 0, 0, 0, 0]);
    assert_eq!(grid.data[80], 9);
}

#[test]
fn inline_data_is_found_inside_other_text() {
    let info = format!("grid: {} (end)", puzzle_text());
    let grid = grid_from_argument(&info, Some("1,2,3")).expect("81 values");
    assert_eq!(grid.data[0], 5);
    assert_eq!(grid.data[1], 3);
    assert_eq!(grid.data[80], 9);
}

#[test]
fn wrong_number_of_values_gives_nothing() {
    assert!(grid_from_argument("1,2,3", None).is_none());
    let too_many = format!("{},0", puzzle_text());
    assert!(grid_from_argument(&too_many, None).is_none());
}

#[test]
fn file_content_is_used_when_no_inline_data() {
    let text = puzzle_text();
    let grid = grid_from_argument("puzzles/hard.txt", Some(&text)).expect("81 values");
    assert_eq!(grid.data[0], 5);
    assert!(grid_from_argument("no digits here", None).is_none());
    assert!(grid_from_argument("no digits here", Some("1,2")).is_none());
}

#[test]
fn pieces_that_are_no_byte_become_zero() {
    let mut pieces = vec!["1".to_string(); 81];
    pieces[0] = "+7".to_string();
    pieces[1] = "300".to_string();
    pieces[2] = "x".to_string();
    pieces[3] = String::new();
    pieces[4] = "-2".to_string();
    pieces[5] = "255".to_string();
    pieces[6] = "+".to_string();
    pieces[7] = "007".to_string();
    let values = grid_values(&pieces.join(",")).expect("81 pieces");
    assert_eq!(&values[0..9], &[7, 0, 0, 0, 0, 255, 0, 7, 1]);
    assert!(grid_values("").is_none());
    assert_eq!(grid_values(&",".repeat(80)), Some(vec![0u8; 81]));
}
