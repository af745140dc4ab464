use sudoku::Sudoku;
use sudoku::{contains_dup, is_full, is_solution_to, is_solved, is_true, is_true_to_source};

fn board(rows: [[u8; 9]; 9]) -> Sudoku {
    let mut s = Sudoku::new();
    for y in 0..9 {
        for x in 0..9 {
            let d = rows[y][x];
            if d != 0 {
                s.set(x, y, d);
            }
        }
    }
    s
}

const PUZZLE: [[u8; 9]; 9] = [
    [0, 2, 0, 0, 0, 0, 0, 0, 5],
    [0, 0, 7, 0, 8, 5, 0, 2, 0],
    [0, 0, 9, 0, 0, 0, 0, 0, 0],
    [9, 0, 4, 0, 0, 0, 1, 0, 0],
    [1, 8, 6, 0, 0, 0, 0, 0, 0],
    [0, 5, 0, 0, 0, 4, 0, 0, 8],
    [0, 0, 1, 0, 0, 0, 6, 0, 0],
    [0, 7, 5, 9, 0, 8, 0, 0, 0],
    [4, 0, 0, 0, 0, 0, 7, 0, 0],
];

const SOLUTION: [[u8; 9]; 9] = [
    [8, 2, 3, 1, 7, 9, 4, 6, 5],
    [6, 4, 7, 3, 8, 5, 9, 2, 1],
    [5, 1, 9, 4, 2, 6, 8, 3, 7],
    [9, 3, 4, 8, 5, 2, 1, 7, 6],
    [1, 8, 6, 7, 9, 3, 5, 4, 2],
    [7, 5, 2, 6, 1, 4, 3, 9, 8],
    [2, 9, 1, 5, 4, 7, 6, 8, 3],
    [3, 7, 5, 9, 6, 8, 2, 1, 4],
    [4, 6, 8, 2, 3, 1, 7, 5, 9],
];

#[test]
fn new_is_all_empty() {
    let s = Sudoku::new();
    for y in 0..9 {
        for x in 0..9 {
            assert_eq!(s.get(x, y), 0);
        }
    }
}

#[test]
fn set_then_get() {
    let mut s = Sudoku::new();
    s.set(3, 7, 9);
    assert_eq!(s.get(3, 7), 9);
    assert_eq!(s.get(7, 3), 0);
    s.set(0, 0, 1);
    assert_eq!(s.get(0, 0), 1);
    assert_eq!(s.get(3, 7), 9);
}

#[test]
fn get_row_reads_left_to_right() {
    let s = board(PUZZLE);
    assert_eq!(s.get_row(1), vec![0, 0, 7, 0, 8, 5, 0, 2, 0]);
    assert_eq!(s.get_row(8), vec![4, 0, 0, 0, 0, 0, 7, 0, 0]);
}

#[test]
fn get_column_reads_top_to_bottom() {
    let s = board(PUZZLE);
    assert_eq!(s.get_column(0), vec![0, 0, 0, 9, 1, 0, 0, 0, 4]);
    assert_eq!(s.get_column(8), vec![5, 0, 0, 0, 0, 8, 0, 0, 0]);
}

#[test]
fn get_region_row_major() {
    let s = board(PUZZLE);
    assert_eq!(s.get_region(0, 0), vec![0, 2, 0, 0, 0, 7, 0, 0, 9]);
    assert_eq!(s.get_region(2, 1), vec![1, 0, 0, 0, 0, 0, 0, 0, 8]);
    assert_eq!(s.get_region(1, 2), vec![0, 0, 0, 9, 0, 8, 0, 0, 0]);
}

#[test]
fn get_region_of_matches_region() {
    let s = board(PUZZLE);
    for y in 0..9 {
        for x in 0..9 {
            assert_eq!(s.get_region_of(x, y), s.get_region(x / 3, y / 3));
        }
    }
}

#[test]
fn get_mut_writes_through() {
    let mut s = Sudoku::new();
    *s.get_mut(4, 2) = 6;
    assert_eq!(s.get(4, 2), 6);
}

#[test]
fn contains_dup_all_zeros_false() {
    assert!(!contains_dup(&[0, 0, 0, 0, 0, 0, 0, 0, 0]));
}

#[test]
fn contains_dup_distinct_nonzero_false() {
    assert!(!contains_dup(&[1, 2, 3, 4, 5, 6, 7, 8, 9]));
}

#[test]
fn contains_dup_detects_repeat() {
    assert!(contains_dup(&[0, 5, 0, 0, 2, 5, 0, 0, 0]));
    assert!(contains_dup(&[7, 7, 0, 0, 0, 0, 0, 0, 0]));
    assert!(contains_dup(&[1, 2, 3, 4, 5, 6, 7, 8, 1]));
}

#[test]
fn contains_dup_mixed_zeros_distinct_false() {
    assert!(!contains_dup(&[0, 5, 0, 3, 0, 0, 9, 0, 0]));
}

#[test]
fn is_full_on_full_and_partial_grids() {
    assert!(is_full(&board(SOLUTION)));
    assert!(!is_full(&board(PUZZLE)));
    assert!(!is_full(&Sudoku::new()));
}

#[test]
fn is_true_accepts_consistent_grids() {
    assert!(is_true(&Sudoku::new()));
    assert!(is_true(&board(PUZZLE)));
    assert!(is_true(&board(SOLUTION)));
}

#[test]
fn is_true_rejects_row_with_two_fives() {
    let mut rows = [[0u8; 9]; 9];
    rows[4][1] = 5;
    rows[4][7] = 5;
    assert!(!is_true(&board(rows)));
}

#[test]
fn is_true_rejects_column_and_region_duplicates() {
    let mut rows = [[0u8; 9]; 9];
    rows[0][2] = 3;
    rows[8][2] = 3;
    assert!(!is_true(&board(rows)));
    let mut rows2 = [[0u8; 9]; 9];
    rows2[0][0] = 4;
    rows2[2][2] = 4;
    assert!(!is_true(&board(rows2)));
}

#[test]
fn is_true_to_source_checks_clues() {
    let puzzle = board(PUZZLE);
    let solution = board(SOLUTION);
    assert!(is_true_to_source(&puzzle, &solution));
    assert!(is_true_to_source(&Sudoku::new(), &solution));
    let mut altered = solution;
    altered.set(1, 0, 9); // the puzzle's clue at (1, 0) is 2
    assert!(!is_true_to_source(&puzzle, &altered));
}

#[test]
fn is_solved_accepts_only_full_consistent_grids() {
    assert!(is_solved(&board(SOLUTION)));
    assert!(!is_solved(&board(PUZZLE)));
    assert!(!is_solved(&Sudoku::new()));
}

#[test]
fn is_solved_is_stable_on_a_solved_grid() {
    let s = board(SOLUTION);
    assert!(is_solved(&s));
    assert!(is_solved(&s));
}

#[test]
fn row_duplicate_breaks_a_solved_grid() {
    let mut s = board(SOLUTION);
    // row 0 is 8 2 3 1 7 9 4 6 5: writing 2 at column 0 duplicates column 1
    s.set(0, 0, 2);
    assert!(!is_true(&s));
    assert!(!is_solved(&s));
}

#[test]
fn is_solution_to_checks_both_parts() {
    let puzzle = board(PUZZLE);
    let solution = board(SOLUTION);
    assert!(is_solution_to(&puzzle, &solution));
    assert!(!is_solution_to(&puzzle, &puzzle));
    let mut unfaithful = board(SOLUTION);
    unfaithful.set(1, 0, 4);
    assert!(!is_solution_to(&puzzle, &unfaithful));
}
