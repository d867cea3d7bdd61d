use sudoku::bitset::Number;
use sudoku::generator::SudokuGenerator;
use sudoku::sudoku::{Puzzle, Sudoku};
use sudoku::generate_puzzle;

fn grid_from_line(line: &str) -> [[Option<u8>; 9]; 9] {
    let mut cells = [[None; 9]; 9];
    for (i, ch) in line.chars().enumerate() {
        let d = ch.to_digit(10).unwrap() as u8;
        cells[i / 9][i % 9] = if d == 0 { None } else { Some(d) };
    }
    cells
}

fn is_solved(cells: &[[Option<u8>; 9]; 9]) -> bool {
    for i in 0..81 {
        let (r, c) = (i / 9, i % 9);
        let Some(v) = cells[r][c] else { return false };
        if !(1..=9).contains(&v) {
            return false;
        }
        for j in 0..81 {
            let (r2, c2) = (j / 9, j % 9);
            let peer = i != j && (r == r2 || c == c2 || (r / 3 == r2 / 3 && c / 3 == c2 / 3));
            if peer && cells[r2][c2] == Some(v) {
                return false;
            }
        }
    }
    true
}

#[test]
fn sudoku_from_generator_copies_digits() {
    let mut g = SudokuGenerator::default();
    g.try_set_cell(0, 0, Number::N5).unwrap();
    g.try_set_cell(8, 8, Number::N9).unwrap();
    let s = Sudoku::from(g);
    let cells = s.cells();
    assert_eq!(cells[0][0], Some(5));
    assert_eq!(cells[8][8], Some(9));
    assert_eq!(cells[4][4], None);
}

#[test]
fn to_line_writes_digits_and_zeros() {
    let mut g = SudokuGenerator::default();
    g.try_set_cell(0, 0, Number::N5).unwrap();
    g.try_set_cell(0, 2, Number::N3).unwrap();
    g.try_set_cell(8, 8, Number::N9).unwrap();
    let line = Sudoku::from(g).to_line();
    assert_eq!(line.len(), 81);
    assert_eq!(&line[0..3], "503");
    assert_eq!(&line[80..81], "9");
    assert_eq!(line.chars().filter(|c| *c == '0').count(), 78);
}

#[test]
fn to_line_round_trips_from_cells() {
    let line = "530070000600195000098000060800060003400803001700020006060000280000419005000080079";
    let s = Sudoku::from_cells(grid_from_line(line));
    assert_eq!(s.to_line(), line);
}

#[test]
fn grid_string_draws_the_frame() {
    let mut cells = [[None; 9]; 9];
    cells[0][0] = Some(5);
    cells[3][4] = Some(7);
    cells[8][8] = Some(12);
    let text = Sudoku::from_cells(cells).to_grid_string();
    let lines: Vec<&str> = text.lines().collect();
    assert_eq!(lines.len(), 13);
    assert_eq!(lines[0], "┌────────┬────────┬────────┐");
    assert_eq!(lines[1], "│ 5      │        │        │");
    assert_eq!(lines[4], "├────────┼────────┼────────┤");
    assert_eq!(lines[5], "│        │    7   │        │");
    assert_eq!(lines[8], "├────────┼────────┼────────┤");
    assert_eq!(lines[11], "│        │        │       12│");
    assert_eq!(lines[12], "└────────┴────────┴────────┘");
    assert!(text.ends_with('\n'));
}

#[test]
fn puzzle_keeps_both_grids() {
    let a = Sudoku::from_cells(grid_from_line(&"0".repeat(81)));
    let b = Sudoku::from_cells(grid_from_line(&"1".repeat(81)));
    let p = Puzzle::new_from(a, b);
    assert_eq!(p.puzzle().to_line(), "0".repeat(81));
    assert_eq!(p.solution().to_line(), "1".repeat(81));
}

#[test]
fn generated_puzzle_is_sound() {
    let p = generate_puzzle();
    let solution = p.solution().cells();
    let givens = p.puzzle().cells();
    assert!(is_solved(&solution));
    let mut empty = 0;
    for r in 0..9 {
        for c in 0..9 {
            match givens[r][c] {
                Some(v) => assert_eq!(Some(v), solution[r][c]),
                None => empty += 1,
            }
        }
    }
    assert!(empty > 0);
    // the givens admit exactly one completion
    let mut g = SudokuGenerator::default();
    for r in 0..9 {
        for c in 0..9 {
            if let Some(v) = givens[r][c] {
                let n = [
                    Number::N1,
                    Number::N2,
                    Number::N3,
                    Number::N4,
                    Number::N5,
                    Number::N6,
                    Number::N7,
                    Number::N8,
                    Number::N9,
                ][v as usize - 1];
                g.try_set_cell(r, c, n).unwrap();
            }
        }
    }
    assert!(g.has_one_solution());
}

fn generator_from(givens: &[[Option<u8>; 9]; 9]) -> SudokuGenerator {
    let digits = [
        Number::N1,
        Number::N2,
        Number::N3,
        Number::N4,
        Number::N5,
        Number::N6,
        Number::N7,
        Number::N8,
        Number::N9,
    ];
    let mut g = SudokuGenerator::default();
    for r in 0..9 {
        for c in 0..9 {
            if let Some(v) = givens[r][c] {
                g.try_set_cell(r, c, digits[v as usize - 1]).unwrap();
            }
        }
    }
    g
}

#[test]
fn generated_puzzle_is_minimal() {
    let p = generate_puzzle();
    let givens = p.puzzle().cells();
    for r in 0..9 {
        for c in 0..9 {
            if givens[r][c].is_some() {
                let mut g = generator_from(&givens);
                g.clear_cell(r, c);
                assert!(!g.has_one_solution());
            }
        }
    }
}
