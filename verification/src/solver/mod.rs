use crate::bitset::Number;
use crate::generator::{grid_triples, inserted_upto, lemma_filled_upto, lemma_inserted_none, IterCells, SudokuCells, SudokuGenerator};
use vstd::prelude::*;

verus! {

/// A strategy that fills cells of a board.
pub trait Solve: Sized {
    /// Tries to solve the puzzle iteratively and returns the number of values inserted
    fn solve(self, sudoku: &mut SudokuGenerator) -> (r: i32)
        ensures
            r == inserted_upto(old(sudoku)@, final(sudoku)@, 81),
            forall|i: int|
                0 <= i < 81 && (#[trigger] old(sudoku)@.cells[i]) is Some ==> final(sudoku)@.cells[i]
                    == old(sudoku)@.cells[i],
            old(sudoku)@.wf() ==> final(sudoku)@.wf(),
    ;
}

/// A general solver; it has no strategy yet.
pub struct Solver;

/// The naked-singles strategy: fill every cell whose candidate set the
/// counter reports as holding one digit, and repeat while that fills any.
pub struct Singles;

impl Solve for Singles {
    /// The candidate counter (`BitSet::get_count`) reports 0 for every set,
    /// so no cell is ever picked: the board is left as it is and 0 is
    /// returned.
    fn solve(self, sudoku: &mut SudokuGenerator) -> (r: i32)
        ensures
            r == 0,
            final(sudoku)@ == old(sudoku)@,
    {
        let mut counter: i32 = 0;
        proof {
            lemma_filled_upto(sudoku@, 81);
        }
        loop
            invariant
                counter == 0,
                sudoku@ == old(sudoku)@,
                sudoku@.filled_upto(81) <= 81,
            decreases 81 - sudoku@.filled_upto(81),
        {
            let mut solutions: SudokuCells = [[None;9];9];
            let possible = sudoku.get_possible();
            for row_i in 0..9usize
                invariant
                    forall|r: int, c: int| 0 <= r < 9 && 0 <= c < 9 ==> (#[trigger] solutions@[r]@[c]) is None,
            {
                for col_i in 0..9usize
                    invariant
                        row_i < 9,
                        forall|r: int, c: int| 0 <= r < 9 && 0 <= c < 9 ==> (#[trigger] solutions@[r]@[c]) is None,
                {
                    if possible[row_i][col_i].get_count() == 1 {
                        solutions[row_i][col_i] = possible[row_i][col_i].get_next();
                    }
                }
            }
            let mut found: i32 = 0;
            let cells = solutions.iter_cells();
            proof {
                lemma_triples_empty(solutions@, 9);
            }
            for idx in 0..cells.len()
                invariant
                    found == 0,
                    sudoku@ == old(sudoku)@,
                    cells@ == grid_triples(solutions@),
                    forall|k: int| 0 <= k < cells@.len() ==> (#[trigger] cells@[k]).0 is None,
            {
                let (solution, row_i, col_i) = cells[idx];
                if let Some(solution) = solution {
                    // Unreachable: no cell was picked above.
                    match sudoku.try_set_cell(row_i, col_i, solution) {
                        Ok(()) => {},
                        Err(_) => {
                            proof {
                                assert(false);
                            }
                        },
                    }
                    found += 1;
                }
            }
            if found > 0 {
                counter += found;
            } else {
                break;
            }
        }
        proof {
            lemma_inserted_none(sudoku@, 81);
        }
        counter
    }
}

/// The triples of a grid whose cells are all empty carry no digit.
proof fn lemma_triples_empty(rows: Seq<[Option<Number>; 9]>, n: int)
    requires
        n == rows.len(),
        forall|r: int, c: int| 0 <= r < n && 0 <= c < 9 ==> (#[trigger] rows[r]@[c]) is None,
    ensures
        forall|k: int| 0 <= k < grid_triples(rows).len() ==> (#[trigger] grid_triples(rows)[k]).0 is None,
    decreases n,
{
    if n > 0 {
        lemma_triples_empty(rows.drop_last(), n - 1);
    }
}

} // verus!
