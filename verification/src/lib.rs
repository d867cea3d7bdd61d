//! Sudoku generation around a verified board model: digit sets kept as bit
//! words, a board that tracks which digits each row, column and box already
//! holds, an exhaustive uniqueness search and a puzzle generator.

pub mod bitset;
pub mod error;
mod filling;
pub mod generator;
pub mod grids;
mod search;
pub mod solver;
pub mod sudoku;

use crate::bitset::{lemma_digit_set_size, BitSet, Number};
use crate::error::SudokuError;
use crate::filling::{
    dead_end, fill_potential, lemma_fill_advance, lemma_fill_backtrack, lemma_fill_potential,
    lemma_prefix_marks, lemma_untried, lemma_untried_nonneg, tried_len, untried,
};
use crate::generator::{
    col_of, lemma_cleared_record, lemma_row_col, peers, row_of, SudokuGenerator,
};
use crate::grids::{
    canonical_grid, full_valid, has_rival, lemma_canonical_grid, lemma_number_of,
    lemma_rival_fewer_givens, lemma_second_grid, lemma_unique_grid, number_of,
};
use crate::sudoku::{agrees_with, digits_of, is_solved_grid, Puzzle, Sudoku};
use vstd::prelude::*;

verus! {

/// `rand::rngs::ThreadRng`, the thread-local random number generator of
/// `rand`, carried through as an opaque value.
#[verifier::external_type_specification]
#[verifier::external_body]
pub struct ExThreadRng(rand::rngs::ThreadRng);

/// Calls `rand::rng`, which hands out the thread's random number generator.
/// Nothing is claimed of the generator it returns.
#[verifier::external_body]
fn thread_rng() -> rand::rngs::ThreadRng {
    rand::rng()
}

/// Generates a puzzle at random. A complete grid is filled cell by cell in
/// row-major order with random untried digits, stepping back from a cell
/// whose digits are all tried; then every cell is tried once, in random
/// order, and emptied when the board keeps exactly one completion.
///
/// The solution is a solved grid, the puzzle's givens agree with it, it is
/// the only solved grid that does, and removing any single given would let
/// another solved grid agree.
pub fn generate_puzzle() -> (r: Puzzle)
    ensures
        r@.0.len() == 81,
        r@.1.len() == 81,
        is_solved_grid(r@.1),
        agrees_with(r@.0, r@.1),
        forall|s: Seq<Option<u8>>| #[trigger] is_solved_grid(s) && agrees_with(r@.0, s) ==> s == r@.1,
        forall|i: int| 0 <= i < 81 && (#[trigger] r@.0[i]) is Some ==> has_rival(r@.0.update(i, None), r@.1),
{
    let mut sudoku = SudokuGenerator::default();

    let mut rng = thread_rng();

    let mut tried = [[BitSet::new();9];9];
    let mut index: usize = 0;
    let ghost mut p: Seq<Number> = Seq::empty();
    proof {
        lemma_canonical_grid();
        sudoku.lemma_shaped();
    }
    loop
        invariant_except_break
            index < 81,
            sudoku@.cells[index as int] matches Some(v) ==> tried@[row_of(index as int)]@[col_of(
                index as int,
            )]@.contains(v) && dead_end(p, v),
        invariant
            sudoku@.wf(),
            index <= 81,
            p.len() == index,
            forall|j: int| 0 <= j < index ==> sudoku@.cells[j] == Some(#[trigger] p[j]),
            forall|j: int| index < j < 81 ==> (#[trigger] sudoku@.cells[j]) is None,
            forall|j: int, x: Number|
                0 <= j <= index && j < 81 && #[trigger] tried@[row_of(j)]@[col_of(j)]@.contains(x) && (j
                    == index || x != p[j]) ==> dead_end(p.take(j), x),
            forall|j: int| index < j < 81 ==> #[trigger] tried@[row_of(j)]@[col_of(j)]@ == Set::<Number>::empty(),
            forall|j: int| 0 <= j < index ==> tried@[row_of(j)]@[col_of(j)]@.contains(#[trigger] p[j]),
            full_valid(canonical_grid()),
        ensures
            index == 81,
        decreases fill_potential(tried, index + 1),
    {
        let row_i = index / 9;
        let col_i = index % 9;
        let ghost k = index as int;
        let ghost t0 = tried;
        let ghost s0 = sudoku@;
        let ghost mut next_p = p;
        let mut placed = false;
        proof {
            lemma_row_col(row_i as int, col_i as int);
            lemma_fill_potential(t0, t0, k + 1);
            assert(p.take(k) =~= p);
        }
        #[verifier::loop_isolation(false)]
        loop
            invariant
                index == k,
                !placed,
                sudoku@.wf(),
                forall|j: int| 0 <= j < 81 && j != k ==> #[trigger] sudoku@.cells[j] == s0.cells[j],
                sudoku@.cells[k] matches Some(v) ==> tried@[row_i as int]@[col_i as int]@.contains(v)
                    && dead_end(p, v),
                forall|x: Number| #[trigger] tried@[row_i as int]@[col_i as int]@.contains(x) ==> dead_end(p, x),
                forall|j: int| 0 <= j < 81 && j != k ==> #[trigger] tried@[row_of(j)]@[col_of(j)] == t0@[row_of(j)]@[col_of(j)],
                t0@[row_i as int]@[col_i as int]@.subset_of(tried@[row_i as int]@[col_i as int]@),
            decreases 9 - tried_len(tried, k),
        {
            let mut seen = tried[row_i][col_i];
            proof {
                lemma_digit_set_size(seen@);
                assert(tried_len(tried, k) == seen@.len());
            }
            match seen.choose_new(&mut rng) {
                None => {
                    proof {
                        assert forall|x: Number| dead_end(p, x) by {
                            assert(seen@.contains(x));
                            assert(tried@[row_i as int]@[col_i as int]@.contains(x));
                        }
                        if k == 0 {
                            let g = canonical_grid();
                            assert(g.take(0) =~= p);
                            assert(dead_end(p, g[0]));
                            assert(false);
                        }
                        next_p = p.drop_last();
                        assert forall|g: Seq<Number>|
                            #[trigger] full_valid(g) && g.take(k - 1) == next_p implies g[k - 1] != p[k - 1] by {
                            if g[k - 1] == p[k - 1] {
                                assert(g.take(k) =~= p);
                                assert(dead_end(p, g[k]));
                            }
                        }
                        assert(dead_end(next_p, p[k - 1]));
                        assert forall|j: int| 0 <= j < k implies #[trigger] p.take(j) == next_p.take(j) by {
                            assert(p.take(j) =~= next_p.take(j));
                        }
                    }
                    seen.clear();
                    tried[row_i][col_i] = seen;
                    sudoku.clear_cell(row_i, col_i);
                    index = match index.checked_sub(1) {
                        Some(i) => i,
                        None => 0,
                    };
                    proof {
                        lemma_row_col(row_i as int, col_i as int);
                        lemma_cleared_record(s0, row_i as int, col_i as int, 0, 0);
                        assert forall|j: int| 0 <= j < k implies #[trigger] tried_len(t0, j) == tried_len(tried, j) by {
                            assert(tried@[row_of(j)]@[col_of(j)] == t0@[row_of(j)]@[col_of(j)]);
                        }
                        lemma_fill_backtrack(t0, tried, k);
                    }
                    break;
                },
                Some(chosen) => {
                    seen.set(chosen);
                    tried[row_i][col_i] = seen;
                    proof {
                        lemma_prefix_marks(sudoku@, p, chosen);
                    }
                    match sudoku.try_set_cell(row_i, col_i, chosen) {
                        Ok(()) => {
                            placed = true;
                            proof {
                                next_p = p.push(chosen);
                                assert(next_p.take(k) =~= p);
                                assert forall|j: int| 0 <= j < k implies #[trigger] next_p.take(j) == p.take(j) by {
                                    assert(next_p.take(j) =~= p.take(j));
                                }
                                lemma_cleared_record(s0, row_i as int, col_i as int, 0, 0);
                                if k < 80 {
                                    lemma_digit_set_size(t0@[row_i as int]@[col_i as int]@);
                                    vstd::set_lib::lemma_len_subset(t0@[row_i as int]@[col_i as int]@, tried@[row_i as int]@[col_i as int]@.remove(chosen));
                                    assert forall|j: int| 0 <= j < k implies #[trigger] tried_len(t0, j) == tried_len(tried, j) by {
                                        assert(tried@[row_of(j)]@[col_of(j)] == t0@[row_of(j)]@[col_of(j)]);
                                    }
                                    assert(tried@[row_of(k + 1)]@[col_of(k + 1)] == t0@[row_of(k + 1)]@[col_of(k + 1)]);
                                    lemma_fill_advance(t0, tried, k);
                                }
                            }
                            break;
                        },
                        Err(SudokuError::InvalidValue) => {
                            proof {
                                lemma_digit_set_size(tried@[row_i as int]@[col_i as int]@);
                                assert(tried_len(tried, k) == tried@[row_i as int]@[col_i as int]@.len());
                            }
                        },
                        Err(SudokuError::InvalidCell) => {
                            proof {
                                assert(false);
                            }
                        },
                    }
                },
            }
        }
        proof {
            p = next_p;
        }
        if placed {
            index += 1;
            if index >= 9 * 9 {
                break;
            }
        }
    }
    let solution: Sudoku = Sudoku::from(sudoku.clone());
    let ghost sol = solution@;
    proof {
        sudoku.lemma_shaped();
        assert forall|i: int| 0 <= i < 81 implies (#[trigger] sol[i] matches Some(v) && 1 <= v <= 9) && sol[i] == Some(p[i]@ as u8) by {
            crate::bitset::lemma_number_value(p[i], p[i]);
        }
        assert forall|i: int, j: int| 0 <= i < 81 && 0 <= j < 81 && peers(i, j) implies #[trigger] sol[i] != #[trigger] sol[j] by {
            assert(sudoku@.cells[i] != sudoku@.cells[j]);
            crate::bitset::lemma_number_value(p[i], p[j]);
        }
        assert forall|s: Seq<Option<u8>>| #[trigger] is_solved_grid(s) && agrees_with(digits_of(sudoku@), s) implies s == sol by {
            assert(s =~= sol);
        }
    }
    let mut tried_rows = BitSet::new();
    let mut tried_cols = [BitSet::new();9];
    proof {
        lemma_digit_set_size(tried_rows@);
        assert forall|r: int| 0 <= r < 9 implies (#[trigger] tried_cols@[r])@.finite() by {
            lemma_digit_set_size(tried_cols@[r]@);
        }
    }
    loop
        invariant
            sudoku@.wf(),
            is_solved_grid(sol),
            agrees_with(digits_of(sudoku@), sol),
            forall|s: Seq<Option<u8>>| #[trigger] is_solved_grid(s) && agrees_with(digits_of(sudoku@), s) ==> s == sol,
            solution@ == sol,
            forall|r: int| 0 <= r < 9 && #[trigger] tried_rows@.contains(number_of(r + 1)) ==> forall|c: int|
                0 <= c < 9 ==> #[trigger] tried_cols@[r]@.contains(number_of(c + 1)),
            forall|i: int|
                0 <= i < 81 && #[trigger] tried_cols@[row_of(i)]@.contains(number_of(col_of(i) + 1))
                    && digits_of(sudoku@)[i] is Some ==> has_rival(digits_of(sudoku@).update(i, None), sol),
        ensures
            sudoku@.wf(),
            is_solved_grid(sol),
            agrees_with(digits_of(sudoku@), sol),
            forall|s: Seq<Option<u8>>| #[trigger] is_solved_grid(s) && agrees_with(digits_of(sudoku@), s) ==> s == sol,
            forall|i: int| 0 <= i < 81 && (#[trigger] digits_of(sudoku@)[i]) is Some ==> has_rival(digits_of(sudoku@).update(i, None), sol),
        decreases (9 - tried_rows@.len()) + untried(tried_cols, 9),
    {
        proof {
            lemma_digit_set_size(tried_rows@);
            lemma_untried_nonneg(tried_cols, 9);
        }
        let row_i_number = match tried_rows.choose_new(&mut rng) {
            Some(n) => n,
            None => {
                proof {
                    assert forall|i: int| 0 <= i < 81 && (#[trigger] digits_of(sudoku@)[i]) is Some implies has_rival(digits_of(sudoku@).update(i, None), sol) by {
                        assert(tried_rows@.contains(number_of(row_of(i) + 1)));
                        assert(tried_cols@[row_of(i)]@.contains(number_of(col_of(i) + 1)));
                    }
                }
                break;
            },
        };
        let row_i = u8::from(row_i_number) as usize - 1;
        proof {
            crate::bitset::lemma_number_value(row_i_number, number_of(row_i + 1));
            lemma_number_of(row_i + 1);
            lemma_digit_set_size(tried_cols@[row_i as int]@);
        }
        let col_i_number = match tried_cols[row_i].choose_new(&mut rng) {
            Some(n) => n,
            None => {
                tried_rows.set(row_i_number);
                proof {
                    lemma_digit_set_size(tried_rows@);
                    assert forall|r: int| 0 <= r < 9 && #[trigger] tried_rows@.contains(number_of(r + 1)) implies forall|c: int|
                        0 <= c < 9 ==> #[trigger] tried_cols@[r]@.contains(number_of(c + 1)) by {
                        if r == row_i {
                            assert forall|c: int| 0 <= c < 9 implies #[trigger] tried_cols@[r]@.contains(number_of(c + 1)) by {
                                assert(tried_cols@[row_i as int]@.contains(number_of(c + 1)));
                            }
                        } else {
                            lemma_number_of(r + 1);
                            lemma_number_of(row_i + 1);
                        }
                    }
                }
                continue;
            },
        };
        let ghost cols0 = tried_cols;
        let mut cols = tried_cols[row_i];
        cols.set(col_i_number);
        tried_cols[row_i] = cols;
        proof {
            lemma_digit_set_size(cols0@[row_i as int]@);
            assert forall|i: int| 0 <= i < 9 && i != row_i implies #[trigger] tried_cols@[i]@ == cols0@[i]@ by {
            }
            lemma_untried(cols0, tried_cols, row_i as int, 9);
            lemma_untried_nonneg(tried_cols, 9);
        }
        let col_i = u8::from(col_i_number) as usize - 1;
        let ghost i0 = row_i * 9 + col_i;
        let ghost old_digits = digits_of(sudoku@);
        proof {
            crate::bitset::lemma_number_value(col_i_number, number_of(col_i + 1));
            lemma_number_of(col_i + 1);
            lemma_row_col(row_i as int, col_i as int);
            assert forall|r: int| 0 <= r < 9 && #[trigger] tried_rows@.contains(number_of(r + 1)) implies forall|c: int|
                0 <= c < 9 ==> #[trigger] tried_cols@[r]@.contains(number_of(c + 1)) by {
                if r == row_i {
                    assert forall|c: int| 0 <= c < 9 implies #[trigger] tried_cols@[r]@.contains(number_of(c + 1)) by {
                        assert(cols0@[row_i as int]@.contains(number_of(c + 1)));
                    }
                } else {
                    assert(cols0@[r]@ == tried_cols@[r]@);
                }
            }
        }
        let mut sudoku_clone = sudoku.clone();
        sudoku_clone.clear_cell(row_i, col_i);
        let ghost cl = sudoku_clone@;
        proof {
            sudoku.lemma_shaped();
            lemma_cleared_record(sudoku@, row_i as int, col_i as int, 0, 0);
            lemma_row_col(row_i as int, col_i as int);
            assert(cl.cells[row_i * 9 + col_i] is None);
        }
        proof {
            assert forall|i: int| 0 <= i < 81 && i != i0 implies #[trigger] digits_of(cl)[i] == old_digits[i] by {
            }
            assert(digits_of(cl)[i0] is None);
        }
        if sudoku_clone.clone().has_one_solution() {
            proof {
                assert forall|i: int|
                    0 <= i < 81 && #[trigger] tried_cols@[row_of(i)]@.contains(number_of(col_of(i) + 1))
                        && digits_of(cl)[i] is Some implies has_rival(digits_of(cl).update(i, None), sol) by {
                    assert(i != i0);
                    if row_of(i) == row_i {
                        lemma_number_of(col_of(i) + 1);
                        assert(cols0@[row_i as int]@.contains(number_of(col_of(i) + 1)));
                    } else {
                        assert(cols0@[row_of(i)]@ == tried_cols@[row_of(i)]@);
                    }
                    lemma_rival_fewer_givens(old_digits.update(i, None), digits_of(cl).update(i, None), sol);
                }
                assert(agrees_with(digits_of(cl), sol)) by {
                    assert forall|i: int| 0 <= i < 81 && (#[trigger] digits_of(cl)[i]) is Some implies digits_of(cl)[i] == sol[i] by {
                        assert(digits_of(sudoku@)[i] is Some);
                    }
                }
                assert forall|s: Seq<Option<u8>>| #[trigger] is_solved_grid(s) && agrees_with(digits_of(cl), s) implies s == sol by {
                    lemma_unique_grid(cl, sol, s);
                }
            }
            sudoku = sudoku_clone;
        } else {
            proof {
                if old_digits[i0] is Some {
                    lemma_second_grid(cl, sol);
                    assert(digits_of(cl) =~= old_digits.update(i0, None));
                }
                assert forall|i: int|
                    0 <= i < 81 && #[trigger] tried_cols@[row_of(i)]@.contains(number_of(col_of(i) + 1))
                        && digits_of(sudoku@)[i] is Some implies has_rival(digits_of(sudoku@).update(i, None), sol) by {
                    if i != i0 {
                        if row_of(i) == row_i {
                            lemma_number_of(col_of(i) + 1);
                            assert(cols0@[row_i as int]@.contains(number_of(col_of(i) + 1)));
                        } else {
                            assert(cols0@[row_of(i)]@ == tried_cols@[row_of(i)]@);
                        }
                    }
                }
            }
            continue;
        }
    }
    Puzzle::new_from(Sudoku::from(sudoku), solution)
}

} // verus!
