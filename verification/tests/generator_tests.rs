use sudoku::bitset::Number;
use sudoku::error::SudokuError;
use sudoku::generator::{IterCells, SudokuGenerator};
use sudoku::solver::{Singles, Solve};

fn number(d: u8) -> Number {
    match d {
        1 => Number::N1,
        2 => Number::N2,
        3 => Number::N3,
        4 => Number::N4,
        5 => Number::N5,
        6 => Number::N6,
        7 => Number::N7,
        8 => Number::N8,
        9 => Number::N9,
        _ => panic!("not a digit"),
    }
}

fn board(text: &str) -> SudokuGenerator {
    let mut g = SudokuGenerator::default();
    for (i, ch) in text.chars().filter(|c| !c.is_whitespace()).enumerate() {
        if let Some(d) = ch.to_digit(10) {
            if d > 0 {
                g.try_set_cell(i / 9, i % 9, number(d as u8)).unwrap();
            }
        }
    }
    g
}

const PUZZLE: &str = "
53..7....
6..195...
.98....6.
8...6...3
4..8.3..1
7...2...6
.6....28.
...419..5
....8..79";

const SOLUTION: &str = "
534678912
672195348
198342567
859761423
426853791
713924856
961537284
287419635
345286179";

#[test]
fn default_board_is_empty() {
    let g = SudokuGenerator::default();
    for r in 0..9 {
        for c in 0..9 {
            assert_eq!(g.get_cell(r, c), None);
            assert!(!g.get_possible_for_cell(r, c).get(Number::N1));
        }
    }
    assert_eq!(g.count_non_empty(), 0);
    assert!(g.check());
}

#[test]
fn try_set_cell_rejects_positions_off_the_board() {
    let mut g = SudokuGenerator::default();
    assert_eq!(g.try_set_cell(9, 0, Number::N1), Err(SudokuError::InvalidCell));
    assert_eq!(g.try_set_cell(0, 9, Number::N1), Err(SudokuError::InvalidCell));
    assert_eq!(g.count_non_empty(), 0);
}

#[test]
fn try_set_cell_rejects_used_digits() {
    let mut g = SudokuGenerator::default();
    assert_eq!(g.try_set_cell(0, 0, Number::N5), Ok(()));
    // same row, same column, same box
    assert_eq!(g.try_set_cell(0, 8, Number::N5), Err(SudokuError::InvalidValue));
    assert_eq!(g.try_set_cell(8, 0, Number::N5), Err(SudokuError::InvalidValue));
    assert_eq!(g.try_set_cell(2, 2, Number::N5), Err(SudokuError::InvalidValue));
    // the cell's own digit counts
    assert_eq!(g.try_set_cell(0, 0, Number::N5), Err(SudokuError::InvalidValue));
    // elsewhere it is fine
    assert_eq!(g.try_set_cell(4, 4, Number::N5), Ok(()));
    assert_eq!(g.count_non_empty(), 2);
}

#[test]
fn try_set_cell_replaces_a_digit() {
    let mut g = SudokuGenerator::default();
    g.try_set_cell(3, 3, Number::N1).unwrap();
    g.try_set_cell(3, 3, Number::N2).unwrap();
    assert_eq!(g.get_cell(3, 3), Some(Number::N2));
    let marks = g.get_possible_for_cell(3, 8);
    assert!(marks.get(Number::N2));
    assert!(!marks.get(Number::N1));
    assert_eq!(g.count_non_empty(), 1);
}

#[test]
fn clear_cell_frees_the_digit() {
    let mut g = SudokuGenerator::default();
    g.try_set_cell(1, 1, Number::N7).unwrap();
    g.clear_cell(1, 1);
    assert_eq!(g.get_cell(1, 1), None);
    assert!(!g.get_possible_for_cell(1, 5).get(Number::N7));
    assert_eq!(g.try_set_cell(1, 5, Number::N7), Ok(()));
    g.clear_cell(0, 0);
    assert_eq!(g.count_non_empty(), 1);
}

#[test]
fn possible_marks_cover_row_column_and_box() {
    let g = board(PUZZLE);
    let marks = g.get_possible_for_cell(0, 2);
    // row 0: 5 3 7; column 2: 8; box 0: 5 3 6 9 8
    for d in [5, 3, 7, 8, 6, 9] {
        assert!(marks.get(number(d)));
    }
    for d in [1, 2, 4] {
        assert!(!marks.get(number(d)));
    }
    let all = g.get_possible();
    for r in 0..9 {
        for c in 0..9 {
            for d in 1..=9 {
                assert_eq!(all[r][c].get(number(d)), g.get_possible_for_cell(r, c).get(number(d)));
            }
        }
    }
}

#[test]
fn count_non_empty_counts_givens() {
    assert_eq!(board(PUZZLE).count_non_empty(), 30);
    assert_eq!(board(SOLUTION).count_non_empty(), 81);
}

#[test]
fn check_accepts_consistent_boards() {
    assert!(board(PUZZLE).check());
    assert!(board(SOLUTION).check());
}

#[test]
fn check_finds_repeats_written_directly() {
    let mut g = SudokuGenerator::default();
    g.cells_mut()[0][0] = Some(Number::N4);
    g.cells_mut()[0][7] = Some(Number::N4);
    assert!(!g.check());

    let mut g = SudokuGenerator::default();
    g.cells_mut()[0][3] = Some(Number::N4);
    g.cells_mut()[6][3] = Some(Number::N4);
    assert!(!g.check());

    let mut g = SudokuGenerator::default();
    g.cells_mut()[3][3] = Some(Number::N4);
    g.cells_mut()[5][5] = Some(Number::N4);
    assert!(!g.check());

    let mut g = SudokuGenerator::default();
    g.cells_mut()[3][3] = Some(Number::N4);
    g.cells_mut()[6][6] = Some(Number::N4);
    assert!(g.check());
}

#[test]
fn cells_mut_leaves_records_alone() {
    let mut g = SudokuGenerator::default();
    g.cells_mut()[2][2] = Some(Number::N9);
    assert_eq!(g.get_cell(2, 2), Some(Number::N9));
    assert!(!g.get_possible_for_cell(2, 3).get(Number::N9));
}

#[test]
fn unique_puzzle_has_one_solution() {
    assert!(board(PUZZLE).has_one_solution());
}

#[test]
fn one_missing_cell_has_one_solution() {
    let mut g = board(SOLUTION);
    g.clear_cell(4, 4);
    assert!(g.has_one_solution());
}

#[test]
fn sparse_board_has_many_solutions() {
    let g = board("
1........
.........
.........
.........
.........
.........
.........
.........
.........");
    assert!(!g.has_one_solution());
}

#[test]
fn contradictory_board_has_no_solution() {
    // row 0 leaves only 9 for the last cell, column 8 already holds 9
    let g = board("
12345678.
.........
.........
.........
.........
.........
.........
.........
........9");
    assert!(!g.has_one_solution());
}

#[test]
fn two_solutions_are_detected() {
    let mut g = board(SOLUTION);
    // 6 and 7 swap places in these four cells without breaking a rule
    for (r, c) in [(0, 3), (0, 4), (3, 3), (3, 4)] {
        g.clear_cell(r, c);
    }
    assert!(!g.has_one_solution());
    g.try_set_cell(0, 3, Number::N6).unwrap();
    assert!(g.has_one_solution());
}

#[test]
fn singles_changes_nothing() {
    let mut g = board(PUZZLE);
    let before = g.clone();
    assert_eq!(Singles.solve(&mut g), 0);
    for r in 0..9 {
        for c in 0..9 {
            assert_eq!(g.get_cell(r, c), before.get_cell(r, c));
        }
    }
}

#[test]
fn iter_cells_lists_column_then_row() {
    let grid = [[1u8, 2, 3], [4, 5, 6]];
    let cells = grid.iter_cells();
    assert_eq!(
        cells,
        vec![(1, 0, 0), (2, 1, 0), (3, 2, 0), (4, 0, 1), (5, 1, 1), (6, 2, 1)]
    );
}

fn snapshot(g: &SudokuGenerator) -> Vec<(Option<Number>, Vec<bool>)> {
    let mut out = Vec::new();
    for r in 0..9 {
        for c in 0..9 {
            let marks = g.get_possible_for_cell(r, c);
            out.push((g.get_cell(r, c), (1..=9).map(|d| marks.get(number(d))).collect()));
        }
    }
    out
}

#[test]
fn write_then_clear_restores_the_board() {
    let mut g = board(PUZZLE);
    let before = snapshot(&g);
    assert_eq!(g.try_set_cell(0, 2, Number::N4), Ok(()));
    assert_ne!(snapshot(&g), before);
    g.clear_cell(0, 2);
    assert_eq!(snapshot(&g), before);
}

#[test]
fn refused_write_leaves_the_board() {
    let mut g = board(PUZZLE);
    let before = snapshot(&g);
    assert_eq!(g.try_set_cell(0, 2, Number::N5), Err(SudokuError::InvalidValue));
    assert_eq!(g.try_set_cell(10, 2, Number::N4), Err(SudokuError::InvalidCell));
    assert_eq!(snapshot(&g), before);
}

#[test]
fn shifted_rows_make_a_valid_grid() {
    let mut g = SudokuGenerator::default();
    for r in 0..9 {
        for c in 0..9 {
            let v = (3 * (r % 3) + r / 3 + c) % 9 + 1;
            assert_eq!(g.try_set_cell(r, c, number(v as u8)), Ok(()));
        }
    }
    assert!(g.check());
    assert_eq!(g.count_non_empty(), 81);
}

#[test]
fn built_boards_always_pass_check() {
    let mut g = SudokuGenerator::default();
    let mut rng = rand::rng();
    for step in 0..400usize {
        let r = step * 7 % 9;
        let c = step * 5 % 9;
        let mut tried = sudoku::bitset::BitSet::new();
        if step % 5 == 0 {
            g.clear_cell(r, c);
        } else if let Some(n) = tried.choose_new(&mut rng) {
            tried.set(n);
            let _ = g.try_set_cell(r, c, n);
        }
        assert!(g.check());
    }
}

#[test]
fn fewer_givens_keep_several_solutions() {
    let mut g = board(SOLUTION);
    for (r, c) in [(0, 3), (0, 4), (3, 3), (3, 4)] {
        g.clear_cell(r, c);
    }
    assert!(!g.has_one_solution());
    for (r, c) in [(8, 8), (5, 1), (2, 6), (7, 0)] {
        g.clear_cell(r, c);
        assert!(!g.has_one_solution());
    }
}
