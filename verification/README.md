# sudoku

Sudoku puzzle generation with a verified core.

- `src/bitset.rs`: digits and digit sets kept as a 16-bit word.
- `src/generator.rs`: the board model (`Board`), the board under
  construction (`SudokuGenerator`) with its row, column and box records,
  and the facts that keep those records in step with the cells.
- `src/search.rs`: the exhaustive search that decides whether a board has
  exactly one completion.
- `src/grids.rs`, `src/filling.rs`: facts about complete grids and the
  measures behind the generator's loops.
- `src/sudoku.rs`: plain grids of numbers, their line and drawn forms, and
  puzzles with their solutions.
- `src/solver/`: solving strategies.
- `src/lib.rs`: `generate_puzzle`.
- `app/main.rs`: a small program that times puzzle generation; it also holds
  the serializable copies of the grid types.

Everything under `src/` is checked by Verus; `tests/` exercises it.
