use crate::bitset::{BitSet, Number};
use crate::error::SudokuError;
use vstd::prelude::*;

verus! {

/// Lists the cells of a grid with their positions.
pub trait IterCells {
    type Cell;

    /// Every cell with its column and row index, row by row.
    fn iter_cells(&self) -> Vec<(Self::Cell, usize, usize)>;
}

/// The cells of `row` (row index `r`) with their column and row index.
pub open spec fn row_triples<T, const M: usize>(row: [T; M], r: int) -> Seq<(T, usize, usize)> {
    Seq::new(M as nat, |c: int| (row@[c], c as usize, r as usize))
}

/// The cells of `rows` with their column and row index, row by row.
pub open spec fn grid_triples<T, const M: usize>(rows: Seq<[T; M]>) -> Seq<(T, usize, usize)>
    decreases rows.len(),
{
    if rows.len() == 0 {
        Seq::empty()
    } else {
        grid_triples(rows.drop_last()) + row_triples(rows.last(), rows.len() - 1)
    }
}

impl<T: Copy, const M: usize, const N: usize> IterCells for [[T; M]; N] {
    type Cell = T;

    fn iter_cells(&self) -> (r: Vec<(T, usize, usize)>)
        ensures
            r@ == grid_triples(self@),
    {
        let mut cells: Vec<(T, usize, usize)> = Vec::new();
        for row_i in 0..N
            invariant
                cells@ == grid_triples(self@.take(row_i as int)),
        {
            for col_i in 0..M
                invariant
                    row_i < N,
                    cells@ == grid_triples(self@.take(row_i as int)) + row_triples(
                        self@[row_i as int],
                        row_i as int,
                    ).take(col_i as int),
            {
                cells.push((self[row_i][col_i], col_i, row_i));
                assert(cells@ =~= grid_triples(self@.take(row_i as int)) + row_triples(
                    self@[row_i as int],
                    row_i as int,
                ).take(col_i + 1));
            }
            assert(self@.take(row_i + 1).drop_last() =~= self@.take(row_i as int));
            assert(row_triples(self@[row_i as int], row_i as int).take(M as int) =~= row_triples(
                self@[row_i as int],
                row_i as int,
            ));
        }
        assert(self@.take(N as int) =~= self@);
        cells
    }
}

pub type SudokuCell = Option<Number>;

pub type SudokuCells = [[SudokuCell; 9]; 9];

/// The box (0..9, row-major) that holds the cell at `row`, `col`.
pub open spec fn box_index(row: int, col: int) -> int {
    (row / 3) * 3 + col / 3
}

/// Row of the cell with row-major index `i` (0..81).
pub open spec fn row_of(i: int) -> int {
    i / 9
}

/// Column of the cell with row-major index `i` (0..81).
pub open spec fn col_of(i: int) -> int {
    i % 9
}

/// Box of the cell with row-major index `i` (0..81).
pub open spec fn box_of(i: int) -> int {
    box_index(row_of(i), col_of(i))
}

/// The unit of the given kind (rows 0, columns 1, boxes 2) that holds cell `i`.
pub open spec fn unit_of(kind: int, i: int) -> int {
    if kind == 0 {
        row_of(i)
    } else if kind == 1 {
        col_of(i)
    } else {
        box_of(i)
    }
}

/// Two distinct cells (row-major indices) that share a row, a column or a box.
pub open spec fn peers(i: int, j: int) -> bool {
    &&& i != j
    &&& (row_of(i) == row_of(j) || col_of(i) == col_of(j) || box_of(i) == box_of(j))
}

/// The cell (row-major index) at position `t` (0..9) of unit `k` (0..9) of
/// the given kind: rows for kind 0, columns for kind 1, boxes for kind 2.
/// Positions run left to right, top to bottom.
pub open spec fn unit_cell(kind: int, k: int, t: int) -> int {
    if kind == 0 {
        k * 9 + t
    } else if kind == 1 {
        t * 9 + k
    } else {
        ((k / 3) * 3 + t / 3) * 9 + (k % 3) * 3 + t % 3
    }
}

/// Row-major indices split into their row and column.
pub proof fn lemma_row_col(r: int, c: int)
    requires
        0 <= r < 9,
        0 <= c < 9,
    ensures
        row_of(r * 9 + c) == r,
        col_of(r * 9 + c) == c,
        0 <= r * 9 + c < 81,
{
}

/// Position `t` of box `k` lies in box `k`.
pub proof fn lemma_box_split(k: int, t: int)
    requires
        0 <= k < 9,
        0 <= t < 9,
    ensures
        0 <= (k / 3) * 3 + t / 3 < 9,
        0 <= (k % 3) * 3 + t % 3 < 9,
        box_index((k / 3) * 3 + t / 3, (k % 3) * 3 + t % 3) == k,
{
    let r = (k / 3) * 3 + t / 3;
    let c = (k % 3) * 3 + t % 3;
    assert(r / 3 == k / 3);
    assert(c / 3 == k % 3);
}

/// The positions of a unit are distinct peer cells on the board.
pub proof fn lemma_unit_cells(kind: int, k: int, t1: int, t2: int)
    requires
        0 <= kind < 3,
        0 <= k < 9,
        0 <= t1 < 9,
        0 <= t2 < 9,
    ensures
        0 <= unit_cell(kind, k, t1) < 81,
        t1 != t2 ==> peers(unit_cell(kind, k, t1), unit_cell(kind, k, t2)),
{
    if kind == 0 {
        lemma_row_col(k, t1);
        lemma_row_col(k, t2);
    } else if kind == 1 {
        lemma_row_col(t1, k);
        lemma_row_col(t2, k);
    } else {
        let r1 = (k / 3) * 3 + t1 / 3;
        let c1 = (k % 3) * 3 + t1 % 3;
        let r2 = (k / 3) * 3 + t2 / 3;
        let c2 = (k % 3) * 3 + t2 % 3;
        lemma_box_split(k, t1);
        lemma_box_split(k, t2);
        lemma_row_col(r1, c1);
        lemma_row_col(r2, c2);
        assert(unit_cell(kind, k, t1) == r1 * 9 + c1);
        assert(unit_cell(kind, k, t2) == r2 * 9 + c2);
        if t1 != t2 {
            assert(r1 != r2 || c1 != c2);
        }
    }
}

/// Two peer cells sit at two positions of one unit.
pub proof fn lemma_peers_share_unit(i: int, j: int) -> (w: (int, int, int, int))
    requires
        0 <= i < 81,
        0 <= j < 81,
        peers(i, j),
    ensures
        0 <= w.0 < 3,
        0 <= w.1 < 9,
        0 <= w.2 < 9,
        0 <= w.3 < 9,
        w.2 != w.3,
        unit_cell(w.0, w.1, w.2) == i,
        unit_cell(w.0, w.1, w.3) == j,
{
    if row_of(i) == row_of(j) {
        (0, row_of(i), col_of(i), col_of(j))
    } else if col_of(i) == col_of(j) {
        (1, col_of(i), row_of(i), row_of(j))
    } else {
        let k = box_of(i);
        let t1 = (row_of(i) % 3) * 3 + col_of(i) % 3;
        let t2 = (row_of(j) % 3) * 3 + col_of(j) % 3;
        assert(k / 3 == row_of(i) / 3);
        assert(k % 3 == col_of(i) / 3);
        assert(k / 3 == row_of(j) / 3);
        assert(k % 3 == col_of(j) / 3);
        assert(t1 / 3 == row_of(i) % 3);
        assert(t1 % 3 == col_of(i) % 3);
        assert(t2 / 3 == row_of(j) % 3);
        assert(t2 % 3 == col_of(j) % 3);
        (2, k, t1, t2)
    }
}

/// How clearing a cell changes a unit's record.
pub proof fn lemma_cleared_record(b: Board, r: int, c: int, kind: int, k: int)
    requires
        b.shaped(),
        0 <= r < 9,
        0 <= c < 9,
        0 <= kind < 3,
        0 <= k < 9,
    ensures
        b.cleared(r, c).shaped(),
        b.cleared(r, c).record(kind, k) == (match b.at(r, c) {
            Some(n) => if unit_of(kind, r * 9 + c) == k {
                b.record(kind, k).remove(n)
            } else {
                b.record(kind, k)
            },
            None => b.record(kind, k),
        }),
        forall|i: int|
            0 <= i < 81 && i != r * 9 + c ==> #[trigger] b.cleared(r, c).cells[i] == b.cells[i],
        b.cleared(r, c).cells[r * 9 + c] is None,
{
    lemma_row_col(r, c);
}

/// How placing a digit changes a unit's record.
pub proof fn lemma_placed_record(b: Board, r: int, c: int, n: Number, kind: int, k: int)
    requires
        b.shaped(),
        0 <= r < 9,
        0 <= c < 9,
        0 <= kind < 3,
        0 <= k < 9,
    ensures
        b.placed(r, c, n).shaped(),
        b.placed(r, c, n).record(kind, k) == if unit_of(kind, r * 9 + c) == k {
            b.record(kind, k).insert(n)
        } else {
            b.record(kind, k)
        },
        forall|i: int|
            0 <= i < 81 && i != r * 9 + c ==> #[trigger] b.placed(r, c, n).cells[i] == b.cells[i],
        b.placed(r, c, n).cells[r * 9 + c] == Some(n),
{
    lemma_row_col(r, c);
}

/// The marks of a cell are the records of its three units.
pub proof fn lemma_marks_records(b: Board, r: int, c: int)
    requires
        0 <= r < 9,
        0 <= c < 9,
    ensures
        forall|n: Number|
            b.marks(r, c).contains(n) <==> (exists|kind: int|
                0 <= kind < 3 && #[trigger] b.record(kind, unit_of(kind, r * 9 + c)).contains(n)),
{
    lemma_row_col(r, c);
    assert forall|n: Number|
        b.marks(r, c).contains(n) implies (exists|kind: int|
            0 <= kind < 3 && #[trigger] b.record(kind, unit_of(kind, r * 9 + c)).contains(n)) by {
        if b.rows[r].contains(n) {
            assert(b.record(0, unit_of(0, r * 9 + c)).contains(n));
        } else if b.cols[c].contains(n) {
            assert(b.record(1, unit_of(1, r * 9 + c)).contains(n));
        } else {
            assert(b.record(2, unit_of(2, r * 9 + c)).contains(n));
        }
    }
}

/// Peer cells share a unit of some kind, and cells sharing a unit are peers.
pub proof fn lemma_peers_units(i: int, j: int)
    ensures
        peers(i, j) <==> (i != j && exists|kind: int|
            0 <= kind < 3 && #[trigger] unit_of(kind, i) == unit_of(kind, j)),
{
    if peers(i, j) {
        if row_of(i) == row_of(j) {
            assert(unit_of(0, i) == unit_of(0, j));
        } else if col_of(i) == col_of(j) {
            assert(unit_of(1, i) == unit_of(1, j));
        } else {
            assert(unit_of(2, i) == unit_of(2, j));
        }
    }
}

/// Clearing a cell keeps a well-formed board well-formed.
pub proof fn lemma_cleared_wf(b: Board, r: int, c: int)
    requires
        b.wf(),
        0 <= r < 9,
        0 <= c < 9,
    ensures
        b.cleared(r, c).wf(),
{
    let a = b.cleared(r, c);
    let idx = r * 9 + c;
    lemma_row_col(r, c);
    assert(a.shaped()) by {
        lemma_cleared_record(b, r, c, 0, 0);
    }
    assert forall|kind: int, k: int| 0 <= kind < 3 && 0 <= k < 9 implies #[trigger] a.record(kind, k)
        == a.digits_in(kind, k) by {
        lemma_cleared_record(b, r, c, kind, k);
        assert(b.record(kind, k) == b.digits_in(kind, k));
        assert forall|m: Number| a.record(kind, k).contains(m) <==> a.digits_in(kind, k).contains(m) by {
            if a.digits_in(kind, k).contains(m) {
                let i = choose|i: int| 0 <= i < 81 && unit_of(kind, i) == k && a.cells[i] == Some(m);
                assert(b.digits_in(kind, k).contains(m));
                if let Some(n) = b.at(r, c) {
                    if unit_of(kind, idx) == k && m == n {
                        lemma_peers_units(i, idx);
                        assert(peers(i, idx) && b.cells[i] is Some && b.cells[idx] is Some);
                    }
                }
            }
            if a.record(kind, k).contains(m) {
                assert(b.digits_in(kind, k).contains(m));
                let i = choose|i: int| 0 <= i < 81 && unit_of(kind, i) == k && b.cells[i] == Some(m);
                assert(a.cells[i] == Some(m));
            }
        }
        assert(a.record(kind, k) =~= a.digits_in(kind, k));
    }
    assert forall|i: int, j: int|
        0 <= i < 81 && 0 <= j < 81 && peers(i, j) && #[trigger] a.cells[i] is Some
            && #[trigger] a.cells[j] is Some implies a.cells[i] != a.cells[j] by {
        lemma_cleared_record(b, r, c, 0, 0);
        assert(b.cells[i] is Some && b.cells[j] is Some);
    }
}

/// Placing a digit that the cell's marks do not hold into an empty cell
/// keeps a well-formed board well-formed.
pub proof fn lemma_placed_wf(b: Board, r: int, c: int, n: Number)
    requires
        b.wf(),
        0 <= r < 9,
        0 <= c < 9,
        b.at(r, c) is None,
        !b.marks(r, c).contains(n),
    ensures
        b.placed(r, c, n).wf(),
{
    let a = b.placed(r, c, n);
    let idx = r * 9 + c;
    lemma_row_col(r, c);
    lemma_marks_records(b, r, c);
    assert(a.shaped()) by {
        lemma_placed_record(b, r, c, n, 0, 0);
    }
    assert forall|kind: int, k: int| 0 <= kind < 3 && 0 <= k < 9 implies #[trigger] a.record(kind, k)
        == a.digits_in(kind, k) by {
        lemma_placed_record(b, r, c, n, kind, k);
        assert(b.record(kind, k) == b.digits_in(kind, k));
        assert forall|m: Number| a.record(kind, k).contains(m) <==> a.digits_in(kind, k).contains(m) by {
            if a.digits_in(kind, k).contains(m) {
                let i = choose|i: int| 0 <= i < 81 && unit_of(kind, i) == k && a.cells[i] == Some(m);
                if i != idx {
                    assert(b.digits_in(kind, k).contains(m));
                }
            }
            if a.record(kind, k).contains(m) {
                if unit_of(kind, idx) == k && m == n {
                    assert(a.cells[idx] == Some(n));
                } else {
                    assert(b.digits_in(kind, k).contains(m));
                    let i = choose|i: int| 0 <= i < 81 && unit_of(kind, i) == k && b.cells[i] == Some(m);
                    assert(i != idx);
                    assert(a.cells[i] == Some(m));
                }
            }
        }
        assert(a.record(kind, k) =~= a.digits_in(kind, k));
    }
    assert forall|i: int, j: int|
        0 <= i < 81 && 0 <= j < 81 && peers(i, j) && #[trigger] a.cells[i] is Some
            && #[trigger] a.cells[j] is Some implies a.cells[i] != a.cells[j] by {
        lemma_placed_record(b, r, c, n, 0, 0);
        if i == idx || j == idx {
            let o = if i == idx { j } else { i };
            lemma_peers_units(i, j);
            let kind = choose|kind: int| 0 <= kind < 3 && #[trigger] unit_of(kind, i) == unit_of(kind, j);
            if a.cells[o] == Some(n) {
                assert(b.cells[o] == Some(n));
                assert(b.digits_in(kind, unit_of(kind, idx)).contains(n));
                assert(b.record(kind, unit_of(kind, idx)) == b.digits_in(kind, unit_of(kind, idx)));
                assert(b.record(kind, unit_of(kind, idx)).contains(n));
            }
        } else {
            assert(b.cells[i] is Some && b.cells[j] is Some);
        }
    }
}

/// A successful write keeps a well-formed board well-formed.
pub proof fn lemma_written_wf(b: Board, r: int, c: int, n: Number)
    requires
        b.wf(),
        0 <= r < 9,
        0 <= c < 9,
        !b.marks(r, c).contains(n),
    ensures
        b.written(r, c, n).wf(),
{
    lemma_cleared_wf(b, r, c);
    let a = b.cleared(r, c);
    lemma_marks_records(b, r, c);
    lemma_marks_records(a, r, c);
    assert forall|kind: int| 0 <= kind < 3 implies !#[trigger] a.record(kind, unit_of(kind, r * 9 + c)).contains(n) by {
        lemma_row_col(r, c);
        lemma_cleared_record(b, r, c, kind, unit_of(kind, r * 9 + c));
    }
    lemma_cleared_record(b, r, c, 0, 0);
    lemma_placed_wf(a, r, c, n);
}

/// The empty cells are listed in increasing order, and they are exactly the
/// cells below `n` that hold no digit.
pub proof fn lemma_empties(b: Board, n: int)
    requires
        0 <= n <= 81,
        b.cells.len() == 81,
    ensures
        b.empties(n).len() <= n,
        forall|j: int| 0 <= j < b.empties(n).len() ==> 0 <= #[trigger] b.empties(n)[j] < n,
        forall|j: int| 0 <= j < b.empties(n).len() ==> b.cells[#[trigger] b.empties(n)[j]] is None,
        forall|j1: int, j2: int|
            0 <= j1 < j2 < b.empties(n).len() ==> #[trigger] b.empties(n)[j1] < #[trigger] b.empties(n)[j2],
        forall|i: int| 0 <= i < n && b.cells[i] is None ==> #[trigger] b.empties(n).contains(i),
    decreases n,
{
    if n > 0 {
        lemma_empties(b, n - 1);
        let prev = b.empties(n - 1);
        if b.cells[n - 1] is None {
            assert(b.empties(n) == prev.push(n - 1));
            assert forall|i: int| 0 <= i < n && b.cells[i] is None implies #[trigger] b.empties(n).contains(i) by {
                if i == n - 1 {
                    assert(b.empties(n)[prev.len() as int] == i);
                } else {
                    assert(prev.contains(i));
                    let j = choose|j: int| 0 <= j < prev.len() && prev[j] == i;
                    assert(b.empties(n)[j] == i);
                }
            }
        }
    }
}

/// How many of the first `n` cells are empty in `before` and hold a digit in
/// `after`.
pub open spec fn inserted_upto(before: Board, after: Board, n: int) -> nat
    decreases n,
{
    if n <= 0 {
        0
    } else {
        inserted_upto(before, after, n - 1) + if before.cells[n - 1] is None && after.cells[n
            - 1] is Some {
            1nat
        } else {
            0nat
        }
    }
}

/// A board compared with itself has no inserted cells.
pub proof fn lemma_inserted_none(b: Board, n: int)
    ensures
        inserted_upto(b, b, n) == 0,
    decreases n,
{
    if n > 0 {
        lemma_inserted_none(b, n - 1);
    }
}

/// At most `n` of the first `n` cells hold a digit.
pub proof fn lemma_filled_upto(b: Board, n: int)
    requires
        0 <= n,
    ensures
        b.filled_upto(n) <= n,
    decreases n,
{
    if n > 0 {
        lemma_filled_upto(b, n - 1);
    }
}

/// Writing a digit into an empty cell and clearing the cell again gives back
/// the board.
pub proof fn lemma_write_then_clear(b: Board, r: int, c: int, n: Number)
    requires
        b.shaped(),
        0 <= r < 9,
        0 <= c < 9,
        b.at(r, c) is None,
        !b.marks(r, c).contains(n),
    ensures
        b.written(r, c, n).cleared(r, c) == b,
{
    let a = b.written(r, c, n).cleared(r, c);
    lemma_row_col(r, c);
    assert(b.cleared(r, c) == b);
    assert(a.cells =~= b.cells);
    assert(a.rows =~= b.rows) by {
        assert(b.rows[r].insert(n).remove(n) =~= b.rows[r]);
    }
    assert(a.cols =~= b.cols) by {
        assert(b.cols[c].insert(n).remove(n) =~= b.cols[c]);
    }
    assert(a.boxes =~= b.boxes) by {
        assert(b.boxes[box_index(r, c)].insert(n).remove(n) =~= b.boxes[box_index(r, c)]);
    }
}

/// A well-formed board passes `check`: its cells break no rule.
pub proof fn lemma_wf_valid(b: Board)
    requires
        b.wf(),
    ensures
        b.valid(),
{
}

/// A board whose every unit is free of repeats breaks no rule.
pub proof fn lemma_valid_from_units(b: Board)
    requires
        b.cells.len() == 81,
        forall|kind: int, k: int| 0 <= kind < 3 && 0 <= k < 9 ==> #[trigger] b.unit_distinct(kind, k, 9),
    ensures
        b.valid(),
{
    assert forall|i: int, j: int|
        0 <= i < 81 && 0 <= j < 81 && peers(i, j) && #[trigger] b.cells[i] is Some
            && #[trigger] b.cells[j] is Some implies b.cells[i] != b.cells[j] by {
        let w = lemma_peers_share_unit(i, j);
        assert(b.unit_distinct(w.0, w.1, 9));
        if w.2 > w.3 {
            assert(b.cells[unit_cell(w.0, w.1, w.3)] != b.cells[unit_cell(w.0, w.1, w.2)]);
        }
    }
}

/// One more position of a unit: the seen digits grow by the cell's digit, and
/// the unit stays free of repeats when that digit was not seen yet.
proof fn lemma_unit_step(b: Board, kind: int, k: int, t: int)
    requires
        b.cells.len() == 81,
        0 <= kind < 3,
        0 <= k < 9,
        0 <= t < 9,
        b.unit_distinct(kind, k, t),
        b.cells[unit_cell(kind, k, t)] matches Some(n) ==> !b.unit_seen(kind, k, t).contains(n),
    ensures
        b.unit_distinct(kind, k, t + 1),
        b.unit_seen(kind, k, t + 1) == (match b.cells[unit_cell(kind, k, t)] {
            Some(n) => b.unit_seen(kind, k, t).insert(n),
            None => b.unit_seen(kind, k, t),
        }),
{
    let next = match b.cells[unit_cell(kind, k, t)] {
        Some(n) => b.unit_seen(kind, k, t).insert(n),
        None => b.unit_seen(kind, k, t),
    };
    assert forall|n: Number| b.unit_seen(kind, k, t + 1).contains(n) <==> next.contains(n) by {
        if b.unit_seen(kind, k, t + 1).contains(n) {
            let u = choose|u: int| 0 <= u < t + 1 && b.cells[unit_cell(kind, k, u)] == Some(n);
            if u < t {
                assert(b.unit_seen(kind, k, t).contains(n));
            }
        }
        if b.unit_seen(kind, k, t).contains(n) {
            let u = choose|u: int| 0 <= u < t && b.cells[unit_cell(kind, k, u)] == Some(n);
            assert(0 <= u < t + 1 && b.cells[unit_cell(kind, k, u)] == Some(n));
        }
    }
    assert(b.unit_seen(kind, k, t + 1) =~= next);
    assert forall|t1: int, t2: int|
        0 <= t1 < t2 < t + 1 && (#[trigger] b.cells[unit_cell(kind, k, t1)]) is Some
            && (#[trigger] b.cells[unit_cell(kind, k, t2)]) is Some implies b.cells[unit_cell(
        kind,
        k,
        t1,
    )] != b.cells[unit_cell(kind, k, t2)] by {
        if t2 == t {
            let n = b.cells[unit_cell(kind, k, t1)]->0;
            if b.cells[unit_cell(kind, k, t1)] == b.cells[unit_cell(kind, k, t2)] {
                assert(b.unit_seen(kind, k, t).contains(n));
            }
        }
    }
}

/// A digit seen earlier in a unit and held again breaks the rules.
proof fn lemma_unit_repeat(b: Board, kind: int, k: int, t: int, n: Number)
    requires
        b.cells.len() == 81,
        0 <= kind < 3,
        0 <= k < 9,
        0 <= t < 9,
        b.cells[unit_cell(kind, k, t)] == Some(n),
        b.unit_seen(kind, k, t).contains(n),
    ensures
        !b.valid(),
{
    let u = choose|u: int| 0 <= u < t && b.cells[unit_cell(kind, k, u)] == Some(n);
    lemma_unit_cells(kind, k, u, t);
    lemma_unit_cells(kind, k, t, u);
    let i = unit_cell(kind, k, u);
    let j = unit_cell(kind, k, t);
    assert(peers(i, j) && b.cells[i] is Some && b.cells[j] is Some);
}

/// What a `SudokuGenerator` holds: the 81 cells in row-major order and, for
/// each row, column and box, the set of digits it records as taken.
#[verifier::ext_equal]
pub struct Board {
    pub cells: Seq<Option<Number>>,
    pub rows: Seq<Set<Number>>,
    pub cols: Seq<Set<Number>>,
    pub boxes: Seq<Set<Number>>,
}

impl Board {
    /// The cell at `row`, `col`.
    pub open spec fn at(self, row: int, col: int) -> Option<Number> {
        self.cells[row * 9 + col]
    }

    /// The digits recorded as taken in the row, column and box of `row`, `col`.
    pub open spec fn marks(self, row: int, col: int) -> Set<Number> {
        self.rows[row] + self.cols[col] + self.boxes[box_index(row, col)]
    }

    /// The board with the cell at `row`, `col` emptied, its digit taken out of
    /// the cell's row, column and box records.
    pub open spec fn cleared(self, row: int, col: int) -> Board {
        match self.at(row, col) {
            Some(n) => Board {
                cells: self.cells.update(row * 9 + col, None),
                rows: self.rows.update(row, self.rows[row].remove(n)),
                cols: self.cols.update(col, self.cols[col].remove(n)),
                boxes: self.boxes.update(
                    box_index(row, col),
                    self.boxes[box_index(row, col)].remove(n),
                ),
            },
            None => self,
        }
    }

    /// The board with `n` put in the cell at `row`, `col` and recorded in the
    /// cell's row, column and box.
    pub open spec fn placed(self, row: int, col: int, n: Number) -> Board {
        Board {
            cells: self.cells.update(row * 9 + col, Some(n)),
            rows: self.rows.update(row, self.rows[row].insert(n)),
            cols: self.cols.update(col, self.cols[col].insert(n)),
            boxes: self.boxes.update(
                box_index(row, col),
                self.boxes[box_index(row, col)].insert(n),
            ),
        }
    }

    /// The board after a successful write of `n` at `row`, `col`.
    pub open spec fn written(self, row: int, col: int, n: Number) -> Board {
        self.cleared(row, col).placed(row, col, n)
    }

    /// The board with every cell empty and nothing recorded.
    pub open spec fn empty() -> Board {
        Board {
            cells: Seq::new(81, |i: int| None),
            rows: Seq::new(9, |i: int| Set::empty()),
            cols: Seq::new(9, |i: int| Set::empty()),
            boxes: Seq::new(9, |i: int| Set::empty()),
        }
    }

    /// The board has its shape: 81 cells, 9 records of each kind.
    pub open spec fn shaped(self) -> bool {
        &&& self.cells.len() == 81
        &&& self.rows.len() == 9
        &&& self.cols.len() == 9
        &&& self.boxes.len() == 9
    }

    /// No two peer cells hold the same digit.
    pub open spec fn valid(self) -> bool {
        forall|i: int, j: int|
            0 <= i < 81 && 0 <= j < 81 && peers(i, j) && #[trigger] self.cells[i] is Some
                && #[trigger] self.cells[j] is Some ==> self.cells[i] != self.cells[j]
    }

    /// The record of unit `k` of the given kind (rows 0, columns 1, boxes 2).
    pub open spec fn record(self, kind: int, k: int) -> Set<Number> {
        if kind == 0 {
            self.rows[k]
        } else if kind == 1 {
            self.cols[k]
        } else {
            self.boxes[k]
        }
    }

    /// The digits that the cells of unit `k` of the given kind hold.
    pub open spec fn digits_in(self, kind: int, k: int) -> Set<Number> {
        Set::new(
            |n: Number|
                exists|i: int| 0 <= i < 81 && unit_of(kind, i) == k && self.cells[i] == Some(n),
        )
    }

    /// No digit repeats among the first `upto` positions of the unit.
    pub open spec fn unit_distinct(self, kind: int, k: int, upto: int) -> bool {
        forall|t1: int, t2: int|
            0 <= t1 < t2 < upto && (#[trigger] self.cells[unit_cell(kind, k, t1)]) is Some
                && (#[trigger] self.cells[unit_cell(kind, k, t2)]) is Some ==> self.cells[unit_cell(
                kind,
                k,
                t1,
            )] != self.cells[unit_cell(kind, k, t2)]
    }

    /// The digits held at the first `upto` positions of the unit.
    pub open spec fn unit_seen(self, kind: int, k: int, upto: int) -> Set<Number> {
        Set::new(
            |n: Number|
                exists|t: int| 0 <= t < upto && self.cells[unit_cell(kind, k, t)] == Some(n),
        )
    }

    /// How many of the first `n` cells hold a digit.
    pub open spec fn filled_upto(self, n: int) -> nat
        decreases n,
    {
        if n <= 0 {
            0
        } else {
            self.filled_upto(n - 1) + if self.cells[n - 1] is Some {
                1nat
            } else {
                0nat
            }
        }
    }

    /// The marks of cell `i` (row-major index).
    pub open spec fn marks_at(self, i: int) -> Set<Number> {
        self.marks(row_of(i), col_of(i))
    }

    /// The empty cells among the first `n`, as increasing row-major indices.
    pub open spec fn empties(self, n: int) -> Seq<int>
        decreases n,
    {
        if n <= 0 {
            Seq::empty()
        } else if self.cells[n - 1] is None {
            self.empties(n - 1).push(n - 1)
        } else {
            self.empties(n - 1)
        }
    }

    /// `a` gives digits to the first `a.len()` cells of `e` without a clash:
    /// no digit is among its cell's marks, and no two peer cells get the
    /// same digit.
    pub open spec fn fills_consistently(self, e: Seq<int>, a: Seq<Number>) -> bool {
        &&& a.len() <= e.len()
        &&& forall|i: int| 0 <= i < a.len() ==> !self.marks_at(e[i]).contains(#[trigger] a[i])
        &&& forall|i: int, j: int|
            #![trigger a[i], a[j]]
            0 <= j < i < a.len() && peers(e[j], e[i]) ==> a[j] != a[i]
    }

    /// `a` lists digits for all empty cells, in row-major order, that fill
    /// them without a clash.
    pub open spec fn is_completion(self, a: Seq<Number>) -> bool {
        &&& a.len() == self.empties(81).len()
        &&& self.fills_consistently(self.empties(81), a)
    }

    /// Exactly one completion exists.
    pub open spec fn has_unique_completion(self) -> bool {
        exists|a: Seq<Number>|
            #[trigger] self.is_completion(a) && forall|c: Seq<Number>|
                #[trigger] self.is_completion(c) ==> c == a
    }

    /// The records agree with the cells, and the cells break no rule.
    pub open spec fn wf(self) -> bool {
        &&& self.shaped()
        &&& self.valid()
        &&& forall|kind: int, k: int|
            0 <= kind < 3 && 0 <= k < 9 ==> #[trigger] self.record(kind, k) == self.digits_in(kind, k)
    }
}

/// A board under construction: the cells plus, for each row, column and box,
/// the set of digits already used there.
#[derive(Debug, Clone, Copy)]
pub struct SudokuGenerator {
    pub(crate) cells: SudokuCells,
    rows: [BitSet; 9],
    cols: [BitSet; 9],
    boxes: [BitSet; 9],
}

impl View for SudokuGenerator {
    type V = Board;

    closed spec fn view(&self) -> Board {
        Board {
            cells: Seq::new(81, |i: int| self.cells@[i / 9]@[i % 9]),
            rows: Seq::new(9, |i: int| self.rows@[i]@),
            cols: Seq::new(9, |i: int| self.cols@[i]@),
            boxes: Seq::new(9, |i: int| self.boxes@[i]@),
        }
    }
}

impl SudokuGenerator {
    /// Every generator's view has the board's shape.
    pub proof fn lemma_shaped(&self)
        ensures
            self@.shaped(),
    {
    }

    fn get_box_i(row_i: usize, col_i: usize) -> (b: usize)
        requires
            row_i < 9,
            col_i < 9,
        ensures
            b == box_index(row_i as int, col_i as int),
            b < 9,
    {
        let box_row_i = row_i / 3;
        let box_col_i = col_i / 3;
        box_row_i * 3 + box_col_i
    }

    /// Empties the cell at `row_i`, `col_i`, taking its digit (if any) out of
    /// the records of its row, column and box.
    pub fn clear_cell(&mut self, row_i: usize, col_i: usize)
        requires
            row_i < 9,
            col_i < 9,
        ensures
            final(self)@ == old(self)@.cleared(row_i as int, col_i as int),
            old(self)@.wf() ==> final(self)@.wf(),
    {
        proof {
            if old(self)@.wf() {
                lemma_cleared_wf(old(self)@, row_i as int, col_i as int);
            }
        }
        if let Some(n) = self.cells[row_i][col_i] {
            let b = Self::get_box_i(row_i, col_i);
            let mut row = self.rows[row_i];
            row.unset(n);
            self.rows[row_i] = row;
            let mut col = self.cols[col_i];
            col.unset(n);
            self.cols[col_i] = col;
            let mut bx = self.boxes[b];
            bx.unset(n);
            self.boxes[b] = bx;
            self.cells[row_i][col_i] = None;
        }
        assert(self@ =~~= old(self)@.cleared(row_i as int, col_i as int));
    }
}

impl SudokuGenerator {
    /// The cell at `row_i`, `col_i`.
    pub fn get_cell(&self, row_i: usize, col_i: usize) -> (r: Option<Number>)
        requires
            row_i < 9,
            col_i < 9,
        ensures
            r == self@.at(row_i as int, col_i as int),
    {
        self.cells[row_i][col_i]
    }

    /// The digits already used in the row, column and box of the cell at
    /// `row_i`, `col_i`.
    pub fn get_possible_for_cell(&self, row_i: usize, col_i: usize) -> (r: BitSet)
        requires
            row_i < 9,
            col_i < 9,
        ensures
            r@ == self@.marks(row_i as int, col_i as int),
    {
        self.rows[row_i] | self.cols[col_i] | self.boxes[Self::get_box_i(row_i, col_i)]
    }

    /// Writes `n` into the cell at `row_i`, `col_i`: refused with
    /// `InvalidCell` when the position is off the board, and with
    /// `InvalidValue` when `n` is already used in the cell's row, column or
    /// box (the cell's own digit counts); otherwise the cell's old digit is
    /// cleared and `n` is put in and recorded.
    pub fn try_set_cell(&mut self, row_i: usize, col_i: usize, n: Number) -> (r: Result<(), SudokuError>)
        ensures
            (row_i >= 9 || col_i >= 9) ==> r == Err::<(), SudokuError>(SudokuError::InvalidCell)
                && final(self)@ == old(self)@,
            (row_i < 9 && col_i < 9 && old(self)@.marks(row_i as int, col_i as int).contains(n))
                ==> r == Err::<(), SudokuError>(SudokuError::InvalidValue) && final(self)@ == old(self)@,
            (row_i < 9 && col_i < 9 && !old(self)@.marks(row_i as int, col_i as int).contains(n))
                ==> r == Ok::<(), SudokuError>(()) && final(self)@ == old(self)@.written(
                row_i as int,
                col_i as int,
                n,
            ),
            old(self)@.wf() ==> final(self)@.wf(),
    {
        if row_i >= 9 || col_i >= 9 {
            return Err(SudokuError::InvalidCell);
        }
        if (self.get_possible_for_cell(row_i, col_i)).get(n) {
            return Err(SudokuError::InvalidValue);
        }
        self.clear_cell(row_i, col_i);
        let ghost mid = self@;
        let b = Self::get_box_i(row_i, col_i);
        let mut row = self.rows[row_i];
        row.set(n);
        self.rows[row_i] = row;
        let mut col = self.cols[col_i];
        col.set(n);
        self.cols[col_i] = col;
        let mut bx = self.boxes[b];
        bx.set(n);
        self.boxes[b] = bx;
        self.cells[row_i][col_i] = Some(n);
        assert(self@ =~~= mid.placed(row_i as int, col_i as int, n));
        proof {
            if old(self)@.wf() {
                lemma_written_wf(old(self)@, row_i as int, col_i as int, n);
            }
        }
        Ok(())
    }

    /// For every cell, the digits already used in its row, column and box.
    pub fn get_possible(&self) -> (r: [[BitSet; 9]; 9])
        ensures
            forall|row: int, col: int|
                0 <= row < 9 && 0 <= col < 9 ==> (#[trigger] r@[row]@[col])@ == self@.marks(row, col),
    {
        let mut possible = [[BitSet::new();9];9];
        for row_i in 0..9usize
            invariant
                forall|row: int, col: int|
                    0 <= row < row_i && 0 <= col < 9 ==> (#[trigger] possible@[row]@[col])@
                        == self@.marks(row, col),
        {
            for col_i in 0..9usize
                invariant
                    row_i < 9,
                    forall|row: int, col: int|
                        0 <= row < row_i && 0 <= col < 9 ==> (#[trigger] possible@[row]@[col])@
                            == self@.marks(row, col),
                    forall|col: int|
                        0 <= col < col_i ==> (#[trigger] possible@[row_i as int]@[col])@ == self@.marks(row_i as int, col),
            {
                possible[row_i][col_i] = self.get_possible_for_cell(row_i, col_i);
            }
        }
        possible
    }
}

impl SudokuGenerator {
    proof fn lemma_view_cell(&self, r: int, c: int)
        requires
            0 <= r < 9,
            0 <= c < 9,
        ensures
            self@.cells[r * 9 + c] == self.cells@[r]@[c],
            self@.cells.len() == 81,
            self@.cells[unit_cell(0, r, c)] == self.cells@[r]@[c],
            self@.cells[unit_cell(1, c, r)] == self.cells@[r]@[c],
    {
        lemma_row_col(r, c);
    }

    /// Whether the cells break no rule: no digit twice in a row, a column or
    /// a box. The records are not consulted.
    pub fn check(&self) -> (r: bool)
        ensures
            r == self@.valid(),
    {
        let ghost b = self@;
        proof {
            self.lemma_view_cell(0, 0);
        }
        let mut seen = BitSet::new();
        for row_i in 0..9usize
            invariant
                b == self@,
                b.cells.len() == 81,
                forall|k: int| 0 <= k < row_i ==> #[trigger] b.unit_distinct(0, k, 9),
        {
            seen.clear();
            assert(b.unit_seen(0, row_i as int, 0) =~= Set::<Number>::empty());
            for col_i in 0..9usize
                invariant
                    b == self@,
                    b.cells.len() == 81,
                    row_i < 9,
                    forall|k: int| 0 <= k < row_i ==> #[trigger] b.unit_distinct(0, k, 9),
                    b.unit_distinct(0, row_i as int, col_i as int),
                    seen@ == b.unit_seen(0, row_i as int, col_i as int),
            {
                proof {
                    self.lemma_view_cell(row_i as int, col_i as int);
                }
                if let Some(n) = self.cells[row_i][col_i] {
                    if seen.get(n) {
                        proof {
                            lemma_unit_repeat(b, 0, row_i as int, col_i as int, n);
                        }
                        return false;
                    } else {
                        seen.set(n);
                    }
                }
                proof {
                    lemma_unit_step(b, 0, row_i as int, col_i as int);
                }
            }
        }
        for col_i in 0..9usize
            invariant
                b == self@,
                b.cells.len() == 81,
                forall|k: int| 0 <= k < 9 ==> #[trigger] b.unit_distinct(0, k, 9),
                forall|k: int| 0 <= k < col_i ==> #[trigger] b.unit_distinct(1, k, 9),
        {
            seen.clear();
            assert(b.unit_seen(1, col_i as int, 0) =~= Set::<Number>::empty());
            for cell_i in 0..9usize
                invariant
                    b == self@,
                    b.cells.len() == 81,
                    col_i < 9,
                    forall|k: int| 0 <= k < 9 ==> #[trigger] b.unit_distinct(0, k, 9),
                    forall|k: int| 0 <= k < col_i ==> #[trigger] b.unit_distinct(1, k, 9),
                    b.unit_distinct(1, col_i as int, cell_i as int),
                    seen@ == b.unit_seen(1, col_i as int, cell_i as int),
            {
                proof {
                    self.lemma_view_cell(cell_i as int, col_i as int);
                }
                if let Some(n) = self.cells[cell_i][col_i] {
                    if seen.get(n) {
                        proof {
                            lemma_unit_repeat(b, 1, col_i as int, cell_i as int, n);
                        }
                        return false;
                    } else {
                        seen.set(n);
                    }
                }
                proof {
                    lemma_unit_step(b, 1, col_i as int, cell_i as int);
                }
            }
        }
        for group_row_i in 0..3usize
            invariant
                b == self@,
                b.cells.len() == 81,
                forall|k: int| 0 <= k < 9 ==> #[trigger] b.unit_distinct(0, k, 9),
                forall|k: int| 0 <= k < 9 ==> #[trigger] b.unit_distinct(1, k, 9),
                forall|k: int| 0 <= k < group_row_i * 3 ==> #[trigger] b.unit_distinct(2, k, 9),
        {
            for group_col_i in 0..3usize
                invariant
                    b == self@,
                    b.cells.len() == 81,
                    group_row_i < 3,
                    forall|k: int| 0 <= k < 9 ==> #[trigger] b.unit_distinct(0, k, 9),
                    forall|k: int| 0 <= k < 9 ==> #[trigger] b.unit_distinct(1, k, 9),
                    forall|k: int|
                        0 <= k < group_row_i * 3 + group_col_i ==> #[trigger] b.unit_distinct(2, k, 9),
            {
                let ghost k = group_row_i * 3 + group_col_i;
                seen.clear();
                assert(b.unit_seen(2, k, 0) =~= Set::<Number>::empty());
                for row_i in 0..3usize
                    invariant
                        b == self@,
                        b.cells.len() == 81,
                        group_row_i < 3,
                        group_col_i < 3,
                        k == group_row_i * 3 + group_col_i,
                        forall|k: int| 0 <= k < 9 ==> #[trigger] b.unit_distinct(0, k, 9),
                        forall|k: int| 0 <= k < 9 ==> #[trigger] b.unit_distinct(1, k, 9),
                        forall|k2: int| 0 <= k2 < k ==> #[trigger] b.unit_distinct(2, k2, 9),
                        b.unit_distinct(2, k, row_i * 3),
                        seen@ == b.unit_seen(2, k, row_i * 3),
                {
                    for col_i in 0..3usize
                        invariant
                            b == self@,
                            b.cells.len() == 81,
                            group_row_i < 3,
                            group_col_i < 3,
                            row_i < 3,
                            k == group_row_i * 3 + group_col_i,
                            forall|k: int| 0 <= k < 9 ==> #[trigger] b.unit_distinct(0, k, 9),
                            forall|k: int| 0 <= k < 9 ==> #[trigger] b.unit_distinct(1, k, 9),
                            forall|k2: int| 0 <= k2 < k ==> #[trigger] b.unit_distinct(2, k2, 9),
                            b.unit_distinct(2, k, row_i * 3 + col_i),
                            seen@ == b.unit_seen(2, k, row_i * 3 + col_i),
                    {
                        let ghost t = row_i * 3 + col_i;
                        proof {
                            assert(k / 3 == group_row_i && k % 3 == group_col_i);
                            assert(t / 3 == row_i && t % 3 == col_i);
                            assert(unit_cell(2, k, t) == (group_row_i * 3 + row_i) * 9 + group_col_i * 3 + col_i);
                            self.lemma_view_cell(group_row_i * 3 + row_i, group_col_i * 3 + col_i);
                        }
                        if let Some(n) = self.cells[group_row_i * 3 + row_i][group_col_i * 3 + col_i] {
                            if seen.get(n) {
                                proof {
                                    lemma_unit_repeat(b, 2, k, t, n);
                                }
                                return false;
                            } else {
                                seen.set(n);
                            }
                        }
                        proof {
                            lemma_unit_step(b, 2, k, t);
                        }
                    }
                }
            }
        }
        proof {
            lemma_valid_from_units(b);
        }
        true
    }
}

/// The empty board is well-formed.
pub proof fn lemma_empty_wf()
    ensures
        Board::empty().wf(),
{
    let b = Board::empty();
    assert forall|kind: int, k: int| 0 <= kind < 3 && 0 <= k < 9 implies #[trigger] b.record(kind, k)
        == b.digits_in(kind, k) by {
        assert(b.record(kind, k) =~= b.digits_in(kind, k));
    }
}

impl Default for SudokuGenerator {
    /// The empty board.
    fn default() -> (r: Self)
        ensures
            r@ == Board::empty(),
            r@.wf(),
    {
        let r = SudokuGenerator {
            cells: [[None;9];9],
            rows: [BitSet::new();9],
            cols: [BitSet::new();9],
            boxes: [BitSet::new();9],
        };
        proof {
            lemma_empty_wf();
            assert forall|i: int| 0 <= i < 81 implies r@.cells[i] == Board::empty().cells[i] by {
                lemma_row_col(i / 9, i % 9);
            }
        }
        assert(r@ =~~= Board::empty());
        r
    }
}

impl SudokuGenerator {
    /// The number of cells that hold a digit.
    pub fn count_non_empty(&self) -> (r: usize)
        ensures
            r == self@.filled_upto(81),
    {
        let mut count: usize = 0;
        for row_i in 0..9usize
            invariant
                count == self@.filled_upto(row_i * 9),
                count <= row_i * 9,
        {
            for col_i in 0..9usize
                invariant
                    row_i < 9,
                    count == self@.filled_upto(row_i * 9 + col_i),
                    count <= row_i * 9 + col_i,
            {
                proof {
                    self.lemma_view_cell(row_i as int, col_i as int);
                }
                if self.cells[row_i][col_i].is_some() {
                    count += 1;
                }
            }
        }
        count
    }

    /// Direct access to the cells. Writes through it leave the records
    /// untouched.
    pub fn cells_mut(&mut self) -> (r: &mut SudokuCells)
        ensures
            forall|i: int| 0 <= i < 81 ==> #[trigger] old(self)@.cells[i] == (*r)@[i / 9]@[i % 9],
            forall|i: int|
                0 <= i < 81 ==> #[trigger] final(self)@.cells[i] == (*final(r))@[i / 9]@[i % 9],
            final(self)@.shaped(),
            final(self)@.rows == old(self)@.rows,
            final(self)@.cols == old(self)@.cols,
            final(self)@.boxes == old(self)@.boxes,
    {
        &mut self.cells
    }
}

} // verus!
