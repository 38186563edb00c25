use sudoku_solver::sudoku::Sudoku;
use sudoku_solver::{Backtrack, Solve};

fn get_solvable_12x12_test_instance() -> Sudoku {
    let mut instance = Sudoku::new(12, 4, 3).unwrap();
    instance
        .populate_from_str(
            r#"_ 8 12 _ _ _ _ 6 3 1  _ _
               _ _ _  _ _ 5 3 _ _ _  _ 2
               3 _ 9  _ 4 8 _ _ _ 7  _ 6
               9 _ _  1 _ 2 _ 8 6 _  _ _
               8 _ _ 11 7 _ _ 9 _ 10 _ _
               _ 10 _ _ _ _ _ _ 9 2 8 _
               _ 11 6 12 _ _ _ _ _ _ 10 _
               _ _ 1 _ 3 _ _ 10 12 _ _ 11
               _ _ _ 9 2 _ 8 _ 1 _ _ 5
               7 _ 5 _ _ _ 4 3 _ 8 _ 1
               12 _ _ _ _ 1 2 _ _ _ _ _
               _ _ 11 4 8 _ _ _ _ 6 9 _ "#,
        )
        .unwrap();
    instance
}

fn get_solvable_9x9_test_instance() -> Sudoku {
    let mut instance = Sudoku::new(9, 3, 3).unwrap();
    instance
        .populate_from_str(
            r#"_ _ 3 _ 2 _ 6 _ _
               9 _ _ 3 _ 5 _ _ 1
               _ _ 1 8 _ 6 4 _ _
               _ _ 8 1 _ 2 9 _ _
               7 _ _ _ _ _ _ _ 8
               _ _ 6 7 _ 8 2 _ _
               _ _ 2 6 _ 9 5 _ _
               8 _ _ 2 _ 3 _ _ 9
               _ _ 5 _ 1 _ 3 _ _"#,
        )
        .unwrap();
    instance
}

fn get_unsolvable_9x9_test_instance() -> Sudoku {
    let mut instance = Sudoku::new(9, 3, 3).unwrap();
    instance
        .populate_from_str(
            r#"_ _ 3 _ 2 _ 6 _ _
               9 _ _ 3 _ 5 _ _ 1
               _ _ 1 8 _ 6 4 _ _
               _ _ 8 1 _ 2 9 _ _
               7 _ _ _ _ _ _ _ 8
               _ _ 6 7 _ 8 2 _ _
               _ _ 2 6 _ 9 5 _ _
               8 _ _ 2 _ 3 3 _ 9
               _ _ 5 _ 1 _ _ _ _"#,
        )
        .unwrap();
    instance
}

fn get_solvable_6x6_test_instance() -> Sudoku {
    let mut instance = Sudoku::new(6, 3, 2).unwrap();
    instance
        .populate_from_str(
            r#"4 2 1 3 _ _
               _ _ 5 4 _ 1
               _ _ 2 6 _ _
               _ 6 4 _ _ _
               2 _ 6 1 _ 3
               1 5 3 2 4 _"#,
        )
        .unwrap();
    instance
}

#[test]
fn test_solvable_12x12() {
    let unsolved = get_solvable_12x12_test_instance();
    assert_eq!(false, unsolved.is_solved());
    let solved = Backtrack::solve(unsolved);
    assert_eq!(true, solved.is_ok());
}

#[test]
fn test_solvable_9x9() {
    let unsolved = get_solvable_9x9_test_instance();
    assert_eq!(false, unsolved.is_solved());
    let solved = Backtrack::solve(unsolved);
    assert_eq!(true, solved.is_ok());
}

#[test]
fn test_unsolvable_9x9() {
    let unsolvable_test_instance = get_unsolvable_9x9_test_instance();
    assert_eq!(false, unsolvable_test_instance.is_solved());
    let solved = Backtrack::solve(unsolvable_test_instance);
    assert_eq!(true, solved.is_err());
}

#[test]
fn test_solvable_6x6() {
    let unsolved = get_solvable_6x6_test_instance();
    assert_eq!(false, unsolved.is_solved());
    let solved = Backtrack::solve(unsolved);
    assert_eq!(true, solved.is_ok());
}

#[test]
fn solved_9x9_passes_is_solved() {
    let unsolved = get_solvable_9x9_test_instance();
    let solved = Backtrack::solve(unsolved).unwrap();
    assert!(solved.is_solved());
}

#[test]
fn solved_12x12_passes_is_solved() {
    let unsolved = get_solvable_12x12_test_instance();
    let solved = Backtrack::solve(unsolved).unwrap();
    assert!(solved.is_solved());
}

#[test]
fn solved_6x6_passes_is_solved() {
    let unsolved = get_solvable_6x6_test_instance();
    let solved = Backtrack::solve(unsolved).unwrap();
    assert!(solved.is_solved());
}

#[test]
fn solve_preserves_givens() {
    let unsolved = get_solvable_9x9_test_instance();
    let solved = unsolved.solved();
    assert!(solved.is_solved());
    for row in 0..9 {
        for col in 0..9 {
            if let Some(v) = unsolved.get(row, col) {
                assert_eq!(Some(v), solved.get(row, col));
            }
        }
    }
}

#[test]
fn solve_is_deterministic() {
    let first = get_solvable_9x9_test_instance().solved();
    let second = get_solvable_9x9_test_instance().solved();
    for row in 0..9 {
        for col in 0..9 {
            assert_eq!(first.get(row, col), second.get(row, col));
        }
    }
}

#[test]
fn failed_solve_leaves_grid_unchanged_and_fails_again() {
    let original = get_unsolvable_9x9_test_instance();
    let attempt = original.solved();
    assert!(!attempt.is_solved());
    for row in 0..9 {
        for col in 0..9 {
            assert_eq!(original.get(row, col), attempt.get(row, col));
        }
    }
    let retry = Backtrack::solve(attempt);
    assert!(retry.is_err());
}

#[test]
fn solve_in_place_mutates_grid() {
    let mut puzzle = get_solvable_6x6_test_instance();
    puzzle.solve();
    assert!(puzzle.is_solved());
    assert_eq!(Some(4), puzzle.get(0, 0));
    assert_eq!(Some(6), puzzle.get(0, 4));
}

#[test]
fn construction_with_bad_geometry_fails() {
    assert!(Sudoku::new(9, 3, 2).is_err());
    assert!(Sudoku::new(9, 3, 3).is_ok());
    assert!(Sudoku::new(0, 0, 0).is_err());
    assert!(Sudoku::new(0, 0, 5).is_err());
    assert!(Sudoku::new(12, 4, 3).is_ok());
    assert!(Sudoku::new(12, 3, 4).is_ok());
}

#[test]
fn new_grid_is_empty() {
    let puzzle = Sudoku::new(4, 2, 2).unwrap();
    assert_eq!(4, puzzle.size());
    assert_eq!(2, puzzle.sec_width());
    assert_eq!(2, puzzle.sec_height());
    for row in 0..4 {
        for col in 0..4 {
            assert_eq!(None, puzzle.get(row, col));
        }
    }
    assert!(!puzzle.is_solved());
}

#[test]
fn is_solved_accepts_a_complete_valid_grid() {
    let mut puzzle = Sudoku::new(4, 2, 2).unwrap();
    puzzle
        .populate_from_str(
            "1 2 3 4\n\
             3 4 1 2\n\
             2 1 4 3\n\
             4 3 2 1",
        )
        .unwrap();
    assert!(puzzle.is_solved());
}

#[test]
fn is_solved_rejects_duplicate_in_row() {
    let mut puzzle = Sudoku::new(4, 2, 2).unwrap();
    // Complete grid, but row 2 holds two 1s (and column constraints break).
    puzzle
        .populate_from_str(
            "1 2 3 4\n\
             3 4 1 2\n\
             1 1 4 3\n\
             4 3 2 1",
        )
        .unwrap();
    assert!(!puzzle.is_solved());
}

#[test]
fn is_solved_rejects_duplicate_in_section() {
    let mut puzzle = Sudoku::new(4, 2, 2).unwrap();
    // Every row and column of this grid is a permutation, but the top-left
    // 2x2 section holds {1, 2, 2, 1}.
    puzzle
        .populate_from_str(
            "1 2 3 4\n\
             2 1 4 3\n\
             3 4 1 2\n\
             4 3 2 1",
        )
        .unwrap();
    assert!(!puzzle.is_solved());
}

#[test]
fn is_solved_rejects_incomplete_grid() {
    let mut puzzle = Sudoku::new(4, 2, 2).unwrap();
    puzzle
        .populate_from_str(
            "1 2 3 4\n\
             3 4 1 2\n\
             2 1 4 3\n\
             4 3 2 _",
        )
        .unwrap();
    assert!(!puzzle.is_solved());
}

#[test]
fn populate_reads_cells_exactly() {
    let mut puzzle = Sudoku::new(12, 4, 3).unwrap();
    puzzle
        .populate_from_str(
            "_ 8 12 _ _ _ _ 6 3 1 _ _\n\
             _ _ _ _ _ 5 3 _ _ _ _ 2\n\
             3 _ 9 _ 4 8 _ _ _ 7 _ 6\n\
             9 _ _ 1 _ 2 _ 8 6 _ _ _\n\
             8 _ _ 11 7 _ _ 9 _ 10 _ _\n\
             _ 10 _ _ _ _ _ _ 9 2 8 _\n\
             _ 11 6 12 _ _ _ _ _ _ 10 _\n\
             _ _ 1 _ 3 _ _ 10 12 _ _ 11\n\
             _ _ _ 9 2 _ 8 _ 1 _ _ 5\n\
             7 _ 5 _ _ _ 4 3 _ 8 _ 1\n\
             12 _ _ _ _ 1 2 _ _ _ _ _\n\
             _ _ 11 4 8 _ _ _ _ 6 9 _",
        )
        .unwrap();
    assert_eq!(None, puzzle.get(0, 0));
    assert_eq!(Some(8), puzzle.get(0, 1));
    assert_eq!(Some(12), puzzle.get(0, 2));
    assert_eq!(Some(11), puzzle.get(4, 3));
    assert_eq!(Some(10), puzzle.get(4, 9));
    assert_eq!(Some(9), puzzle.get(11, 10));
    assert_eq!(None, puzzle.get(11, 11));
}

#[test]
fn populate_accepts_leading_zeros_and_extra_blanks() {
    let mut puzzle = Sudoku::new(4, 2, 2).unwrap();
    puzzle
        .populate_from_str("  01  2   3 4  \n3 4 1 2\n2 1 4 3\n\t4 3 2 1")
        .unwrap();
    assert_eq!(Some(1), puzzle.get(0, 0));
    assert!(puzzle.is_solved());
}

#[test]
fn populate_rejects_wrong_line_count() {
    let mut puzzle = Sudoku::new(4, 2, 2).unwrap();
    assert!(puzzle.populate_from_str("1 2 3 4\n3 4 1 2\n2 1 4 3").is_err());
    // A trailing newline adds an empty tenth line.
    assert!(puzzle
        .populate_from_str("1 2 3 4\n3 4 1 2\n2 1 4 3\n4 3 2 1\n")
        .is_err());
}

#[test]
fn populate_rejects_wrong_token_count() {
    let mut puzzle = Sudoku::new(4, 2, 2).unwrap();
    assert!(puzzle
        .populate_from_str("1 2 3\n3 4 1 2\n2 1 4 3\n4 3 2 1")
        .is_err());
    assert!(puzzle
        .populate_from_str("1 2 3 4 1\n3 4 1 2\n2 1 4 3\n4 3 2 1")
        .is_err());
}

#[test]
fn populate_rejects_out_of_range_value() {
    let mut puzzle = Sudoku::new(4, 2, 2).unwrap();
    assert!(puzzle
        .populate_from_str("1 2 3 5\n3 4 1 2\n2 1 4 3\n4 3 2 1")
        .is_err());
    assert!(puzzle
        .populate_from_str("1 2 3 0\n3 4 1 2\n2 1 4 3\n4 3 2 1")
        .is_err());
    assert!(puzzle
        .populate_from_str("1 2 3 99999999999999999999\n3 4 1 2\n2 1 4 3\n4 3 2 1")
        .is_err());
}

#[test]
fn populate_rejects_malformed_token() {
    let mut puzzle = Sudoku::new(4, 2, 2).unwrap();
    assert!(puzzle
        .populate_from_str("1 2 3 x\n3 4 1 2\n2 1 4 3\n4 3 2 1")
        .is_err());
    assert!(puzzle
        .populate_from_str("1 2 3 __\n3 4 1 2\n2 1 4 3\n4 3 2 1")
        .is_err());
    assert!(puzzle
        .populate_from_str("1 2 3 4_\n3 4 1 2\n2 1 4 3\n4 3 2 1")
        .is_err());
}

#[test]
fn failed_populate_leaves_grid_unchanged() {
    let mut puzzle = Sudoku::new(4, 2, 2).unwrap();
    puzzle
        .populate_from_str("1 2 3 4\n3 4 1 2\n2 1 4 3\n4 3 2 1")
        .unwrap();
    assert!(puzzle.populate_from_str("1 2 3 9\n3 4 1 2\n2 1 4 3\n4 3 2 1").is_err());
    assert_eq!(Some(1), puzzle.get(0, 0));
    assert!(puzzle.is_solved());
}

#[test]
fn set_and_get_cells() {
    let mut puzzle = Sudoku::new(6, 3, 2).unwrap();
    puzzle.set(2, 5, Some(6));
    assert_eq!(Some(6), puzzle.get(2, 5));
    puzzle.set(2, 5, None);
    assert_eq!(None, puzzle.get(2, 5));
}

#[test]
fn solve_fills_an_empty_grid() {
    let mut puzzle = Sudoku::new(4, 2, 2).unwrap();
    puzzle.solve();
    assert!(puzzle.is_solved());
    // Row-major, value-ascending search fills the top row with 1 2 3 4.
    assert_eq!(Some(1), puzzle.get(0, 0));
    assert_eq!(Some(2), puzzle.get(0, 1));
    assert_eq!(Some(3), puzzle.get(0, 2));
    assert_eq!(Some(4), puzzle.get(0, 3));
    assert_eq!(Some(3), puzzle.get(1, 0));
    assert_eq!(Some(4), puzzle.get(1, 1));
}
