//! The exhaustive search behind `SudokuGenerator::has_one_solution`.
use crate::bitset::{lemma_number_value, Number};
use crate::error::SudokuError;
use crate::grids::{lemma_weight, weight};
use crate::generator::{
    col_of, lemma_cleared_record, lemma_empties, lemma_marks_records, lemma_peers_units,
    lemma_placed_record, peers, row_of, unit_of, Board, SudokuGenerator,
};
use vstd::prelude::*;

verus! {

/// The digits whose value is at most `m`.
spec fn upto(m: int) -> Set<Number> {
    Set::new(|y: Number| y@ <= m)
}

/// Lexicographic order on digit sequences of equal length.
spec fn lex_lt(x: Seq<Number>, y: Seq<Number>) -> bool
    decreases x.len(),
{
    if x.len() == 0 || y.len() == 0 {
        false
    } else {
        lex_lt(x.drop_last(), y.drop_last()) || (x.drop_last() == y.drop_last() && x.last()@
            < y.last()@)
    }
}

proof fn lemma_lex_push(x: Seq<Number>, y: Seq<Number>, a: Number, b: Number)
    ensures
        lex_lt(x.push(a), y.push(b)) == (lex_lt(x, y) || (x == y && a@ < b@)),
{
    assert(x.push(a).drop_last() =~= x);
    assert(y.push(b).drop_last() =~= y);
}

proof fn lemma_lex_irreflexive(x: Seq<Number>)
    ensures
        !lex_lt(x, x),
    decreases x.len(),
{
    if x.len() > 0 {
        lemma_lex_irreflexive(x.drop_last());
    }
}

/// `e` lists distinct cells of the board in increasing order.
spec fn increasing_cells(e: Seq<int>) -> bool {
    &&& forall|j: int| 0 <= j < e.len() ==> 0 <= #[trigger] e[j] < 81
    &&& forall|j1: int, j2: int| 0 <= j1 < j2 < e.len() ==> #[trigger] e[j1] < #[trigger] e[j2]
}

/// Some cell of `e` in unit `k` of the given kind holds `n`.
spec fn held_in(st: Board, e: Seq<int>, kind: int, k: int, n: Number) -> bool {
    exists|j: int| 0 <= j < e.len() && unit_of(kind, e[j]) == k && #[trigger] st.cells[e[j]] == Some(n)
}

/// The records of `st` are those of `b0` plus the digits held in the cells of `e`.
spec fn tracks(st: Board, b0: Board, e: Seq<int>) -> bool {
    &&& st.shaped()
    &&& forall|kind: int, k: int, n: Number|
        0 <= kind < 3 && 0 <= k < 9 ==> (#[trigger] st.record(kind, k).contains(n) <==> (b0.record(
            kind,
            k,
        ).contains(n) || held_in(st, e, kind, k, n)))
}

/// While the records are tracked, a cell of `e` is marked with `n` exactly
/// when `n` is among its initial marks or held by the cell itself or one
/// of its peers in `e`.
proof fn lemma_tracked_marks(st: Board, b0: Board, e: Seq<int>, q: int, n: Number)
    requires
        tracks(st, b0, e),
        increasing_cells(e),
        0 <= q < e.len(),
    ensures
        st.marks_at(e[q]).contains(n) <==> (b0.marks_at(e[q]).contains(n) || exists|j: int|
            0 <= j < e.len() && (j == q || peers(e[j], e[q])) && #[trigger] st.cells[e[j]] == Some(n)),
{
    let i = e[q];
    let r = row_of(i);
    let c = col_of(i);
    assert(r * 9 + c == i);
    lemma_marks_records(st, r, c);
    lemma_marks_records(b0, r, c);
    if st.marks_at(i).contains(n) {
        let kind = choose|kind: int| 0 <= kind < 3 && #[trigger] st.record(kind, unit_of(kind, i)).contains(n);
        if !b0.record(kind, unit_of(kind, i)).contains(n) {
            assert(held_in(st, e, kind, unit_of(kind, i), n));
            let j = choose|j: int| 0 <= j < e.len() && unit_of(kind, e[j]) == unit_of(kind, i) && #[trigger] st.cells[e[j]] == Some(n);
            if j != q {
                assert(e[j] != i) by {
                    if j < q {
                        assert(e[j] < e[q]);
                    } else {
                        assert(e[q] < e[j]);
                    }
                }
                lemma_peers_units(e[j], i);
            }
        }
    }
    if exists|j: int|
        0 <= j < e.len() && (j == q || peers(e[j], e[q])) && #[trigger] st.cells[e[j]] == Some(n) {
        let j = choose|j: int|
            0 <= j < e.len() && (j == q || peers(e[j], e[q])) && #[trigger] st.cells[e[j]] == Some(n);
        let kind = if j == q {
            0
        } else {
            lemma_peers_units(e[j], i);
            choose|kind: int| 0 <= kind < 3 && #[trigger] unit_of(kind, e[j]) == unit_of(kind, i)
        };
        assert(held_in(st, e, kind, unit_of(kind, i), n));
        assert(st.record(kind, unit_of(kind, i)).contains(n));
    }
    if b0.marks_at(i).contains(n) {
        let kind = choose|kind: int| 0 <= kind < 3 && #[trigger] b0.record(kind, unit_of(kind, i)).contains(n);
        assert(st.record(kind, unit_of(kind, i)).contains(n));
    }
}

/// Clearing a cell of `e` keeps the records tracked, provided its digit is
/// not among its initial marks and no peer in `e` holds the same digit.
proof fn lemma_tracked_cleared(st: Board, b0: Board, e: Seq<int>, q: int)
    requires
        tracks(st, b0, e),
        increasing_cells(e),
        0 <= q < e.len(),
        st.cells[e[q]] matches Some(v) ==> !b0.marks_at(e[q]).contains(v) && forall|j: int|
            0 <= j < e.len() && j != q && peers(e[j], e[q]) ==> st.cells[e[j]] != Some(v),
    ensures
        tracks(st.cleared(row_of(e[q]), col_of(e[q])), b0, e),
{
    let i = e[q];
    let r = row_of(i);
    let c = col_of(i);
    assert(r * 9 + c == i);
    let a = st.cleared(r, c);
    lemma_cleared_record(st, r, c, 0, 0);
    if let Some(v) = st.cells[i] {
        assert forall|kind: int, k: int, n: Number| 0 <= kind < 3 && 0 <= k < 9 implies (
        #[trigger] a.record(kind, k).contains(n) <==> (b0.record(kind, k).contains(n) || held_in(
            a,
            e,
            kind,
            k,
            n,
        ))) by {
            lemma_cleared_record(st, r, c, kind, k);
            let u = unit_of(kind, i);
            if held_in(a, e, kind, k, n) {
                let j = choose|j: int|
                    0 <= j < e.len() && unit_of(kind, e[j]) == k && #[trigger] a.cells[e[j]] == Some(n);
                assert(j != q);
                assert(e[j] != i) by {
                    if j < q {
                        assert(e[j] < e[q]);
                    } else {
                        assert(e[q] < e[j]);
                    }
                }
                assert(st.cells[e[j]] == Some(n));
                assert(held_in(st, e, kind, k, n));
                if k == u && n == v {
                    lemma_peers_units(e[j], i);
                    assert(peers(e[j], e[q]));
                }
            }
            if held_in(st, e, kind, k, n) && !(k == u && n == v) {
                let j = choose|j: int|
                    0 <= j < e.len() && unit_of(kind, e[j]) == k && #[trigger] st.cells[e[j]] == Some(n);
                assert(j != q);
                assert(e[j] != i) by {
                    if j < q {
                        assert(e[j] < e[q]);
                    } else {
                        assert(e[q] < e[j]);
                    }
                }
                assert(a.cells[e[j]] == Some(n));
                assert(held_in(a, e, kind, k, n));
            }
            if k == u && n == v {
                lemma_marks_records(b0, r, c);
                if b0.record(kind, k).contains(n) {
                    assert(b0.marks_at(i).contains(n));
                }
            }
        }
    } else {
        assert(a == st);
    }
}

/// Placing a digit into an empty cell of `e` keeps the records tracked.
proof fn lemma_tracked_placed(st: Board, b0: Board, e: Seq<int>, q: int, n: Number)
    requires
        tracks(st, b0, e),
        increasing_cells(e),
        0 <= q < e.len(),
        st.cells[e[q]] is None,
    ensures
        tracks(st.placed(row_of(e[q]), col_of(e[q]), n), b0, e),
{
    let i = e[q];
    let r = row_of(i);
    let c = col_of(i);
    assert(r * 9 + c == i);
    let a = st.placed(r, c, n);
    lemma_placed_record(st, r, c, n, 0, 0);
    assert forall|kind: int, k: int, m: Number| 0 <= kind < 3 && 0 <= k < 9 implies (
    #[trigger] a.record(kind, k).contains(m) <==> (b0.record(kind, k).contains(m) || held_in(
        a,
        e,
        kind,
        k,
        m,
    ))) by {
        lemma_placed_record(st, r, c, n, kind, k);
        let u = unit_of(kind, i);
        if held_in(a, e, kind, k, m) && !(k == u && m == n) {
            let j = choose|j: int|
                0 <= j < e.len() && unit_of(kind, e[j]) == k && #[trigger] a.cells[e[j]] == Some(m);
            assert(j != q);
            assert(e[j] != i) by {
                if j < q {
                    assert(e[j] < e[q]);
                } else {
                    assert(e[q] < e[j]);
                }
            }
            assert(st.cells[e[j]] == Some(m));
            assert(held_in(st, e, kind, k, m));
        }
        if held_in(st, e, kind, k, m) {
            let j = choose|j: int|
                0 <= j < e.len() && unit_of(kind, e[j]) == k && #[trigger] st.cells[e[j]] == Some(m);
            assert(j != q);
            assert(e[j] != i) by {
                if j < q {
                    assert(e[j] < e[q]);
                } else {
                    assert(e[q] < e[j]);
                }
            }
            assert(a.cells[e[j]] == Some(m));
            assert(held_in(a, e, kind, k, m));
        }
        if k == u && m == n {
            assert(a.cells[e[q]] == Some(n));
            assert(held_in(a, e, kind, k, m));
        }
    }
}

/// Completion `c` comes before the search position: its first `p.len()`
/// digits precede `p`, or equal `p` and its next digit is at most `m`. With
/// `p` complete, `c` precedes `p`.
spec fn before(c: Seq<Number>, p: Seq<Number>, m: int, len: int) -> bool {
    if p.len() >= len {
        lex_lt(c, p)
    } else {
        lex_lt(c.take(p.len() as int), p) || (c.take(p.len() as int) == p && c[p.len() as int]@ <= m)
    }
}

proof fn lemma_take_push(c: Seq<Number>, k: int)
    requires
        0 <= k < c.len(),
    ensures
        c.take(k + 1) == c.take(k).push(c[k]),
{
    assert(c.take(k + 1) =~= c.take(k).push(c[k]));
}

/// Stepping back from a complete position `p`: the completions before the
/// new position are those before `p`, and `p` itself.
proof fn lemma_before_solution(c: Seq<Number>, p: Seq<Number>, len: int)
    requires
        p.len() == len,
        c.len() == len,
        len >= 1,
    ensures
        before(c, p.drop_last(), p.last()@, len) == (lex_lt(c, p) || c == p),
{
    let k = len - 1;
    lemma_take_push(c, k);
    assert(c.take(len) =~= c);
    assert(p =~= p.drop_last().push(p.last()));
    lemma_lex_push(c.take(k), p.drop_last(), c[k], p.last());
    lemma_number_value(c[k], p.last());
    if c.take(k) == p.drop_last() && c[k] == p.last() {
        assert(c =~= p);
    }
}

/// Stepping back from a level whose digits are all tried.
proof fn lemma_before_backtrack(c: Seq<Number>, p: Seq<Number>, len: int)
    requires
        0 < p.len() < len,
        c.len() == len,
    ensures
        before(c, p.drop_last(), p.last()@, len) == (lex_lt(c.take(p.len() as int), p) || c.take(
            p.len() as int,
        ) == p),
{
    let k = p.len() - 1;
    lemma_take_push(c, k);
    assert(p =~= p.drop_last().push(p.last()));
    lemma_lex_push(c.take(k), p.drop_last(), c[k], p.last());
    lemma_number_value(c[k], p.last());
    if c.take(k) == p.drop_last() && c[k] == p.last() {
        assert(c.take(k + 1) =~= p);
    }
    if c.take(k + 1) == p {
        assert(c.take(k) =~= p.drop_last());
        assert(c.take(k + 1)[k] == c[k]);
    }
}

/// Stepping forward with digit `n` at the current level.
proof fn lemma_before_advance(c: Seq<Number>, p: Seq<Number>, n: Number, len: int)
    requires
        p.len() < len,
        c.len() == len,
    ensures
        before(c, p.push(n), 0, len) == (lex_lt(c.take(p.len() as int), p) || (c.take(p.len() as int)
            == p && c[p.len() as int]@ < n@)),
{
    let k = p.len() as int;
    lemma_take_push(c, k);
    lemma_lex_push(c.take(k), p, c[k], n);
    if k + 1 < len {
        lemma_number_value(c[k + 1], n);
    } else {
        assert(c.take(len) =~= c);
    }
}

/// Weighted count of the digits still to try on the levels of `p`.
spec fn digit_sum(p: Seq<Number>, len: int) -> int
    decreases p.len(),
{
    if p.len() == 0 {
        0
    } else {
        digit_sum(p.drop_last(), len) + (10 - p.last()@) * weight(p.len() - 1, len)
    }
}

proof fn lemma_digit_sum_nonneg(p: Seq<Number>, len: int)
    ensures
        digit_sum(p, len) >= 0,
    decreases p.len(),
{
    if p.len() > 0 {
        lemma_digit_sum_nonneg(p.drop_last(), len);
        lemma_weight(p.len() - 1, len);
        lemma_number_value(p.last(), p.last());
        let d = 10 - p.last()@;
        let w = weight(p.len() - 1, len);
        assert(d * w >= 0) by (nonlinear_arith)
            requires
                d >= 1,
                w >= 1,
        ;
    }
}

/// The measure that every step of the search decreases.
spec fn potential(p: Seq<Number>, m: int, len: int) -> int {
    if p.len() < len {
        2 * (digit_sum(p, len) + (10 - m) * weight(p.len() as int, len))
    } else {
        2 * digit_sum(p, len) + 1
    }
}

proof fn lemma_potential_nonneg(p: Seq<Number>, m: int, len: int)
    requires
        m <= 9,
    ensures
        potential(p, m, len) >= 0,
{
    lemma_digit_sum_nonneg(p, len);
    lemma_weight(p.len() as int, len);
    let d = 10 - m;
    let w = weight(p.len() as int, len);
    assert(d * w >= 0) by (nonlinear_arith)
        requires
            d >= 1,
            w >= 1,
    ;
}

proof fn lemma_push_digit_sum(p: Seq<Number>, n: Number, len: int)
    ensures
        digit_sum(p.push(n), len) == digit_sum(p, len) + (10 - n@) * weight(p.len() as int, len),
{
    assert(p.push(n).drop_last() =~= p);
}

/// Stepping back from a complete position lowers the potential.
proof fn lemma_potential_solution(p: Seq<Number>, len: int)
    requires
        p.len() == len,
        len >= 1,
    ensures
        potential(p.drop_last(), p.last()@, len) < potential(p, 0, len),
{
    assert(p =~= p.drop_last().push(p.last()));
    lemma_push_digit_sum(p.drop_last(), p.last(), len);
}

/// Stepping back from an exhausted level lowers the potential.
proof fn lemma_potential_backtrack(p: Seq<Number>, m: int, len: int)
    requires
        0 < p.len() < len,
        m <= 9,
    ensures
        potential(p.drop_last(), p.last()@, len) < potential(p, m, len),
{
    assert(p =~= p.drop_last().push(p.last()));
    lemma_push_digit_sum(p.drop_last(), p.last(), len);
    lemma_weight(p.len() as int, len);
    let d = 10 - m;
    let w = weight(p.len() as int, len);
    assert(d * w >= 1) by (nonlinear_arith)
        requires
            d >= 1,
            w >= 1,
    ;
}

/// Trying a larger digit at the current level lowers the potential.
proof fn lemma_potential_retry(p: Seq<Number>, m: int, n: int, len: int)
    requires
        p.len() < len,
        m < n,
    ensures
        potential(p, n, len) < potential(p, m, len),
{
    lemma_weight(p.len() as int, len);
    let w = weight(p.len() as int, len);
    assert((10 - n) * w < (10 - m) * w) by (nonlinear_arith)
        requires
            m < n,
            w >= 1,
    ;
}

/// Stepping forward with a digit larger than `m` lowers the potential.
proof fn lemma_potential_advance(p: Seq<Number>, m: int, n: Number, len: int)
    requires
        p.len() < len,
        m < n@,
    ensures
        potential(p.push(n), 0, len) < potential(p, m, len),
{
    let k = p.len() as int;
    lemma_push_digit_sum(p, n, len);
    lemma_weight(k, len);
    let w = weight(k, len);
    if k + 1 < len {
        lemma_weight(k + 1, len);
        let w1 = weight(k + 1, len);
        let x = n@;
        assert((10 - x) * w + 10 * w1 < (10 - m) * w) by (nonlinear_arith)
            requires
                m < x,
                w == 11 * w1,
                w1 >= 1,
        ;
    } else {
        let x = n@;
        assert(2 * ((10 - x) * w) + 1 < 2 * ((10 - m) * w)) by (nonlinear_arith)
            requires
                m < x,
                w >= 1,
        ;
    }
}

/// What the search has tried at level `j` of position `(p, m)`: the cell's
/// initial marks and every digit up to the level's current digit.
spec fn tried_expect(b0: Board, e: Seq<int>, p: Seq<Number>, m: int, j: int) -> Set<Number> {
    b0.marks_at(e[j]) + upto(
        if j < p.len() {
            p[j]@
        } else if j == p.len() {
            m
        } else {
            0
        },
    )
}

proof fn lemma_upto_zero(s: Set<Number>)
    ensures
        s + upto(0) == s,
{
    assert forall|y: Number| !upto(0).contains(y) by {
        lemma_number_value(y, y);
    }
    assert(s + upto(0) =~= s);
}

/// A consistent fill stays consistent on each of its prefixes.
proof fn lemma_fill_prefix(b: Board, e: Seq<int>, c: Seq<Number>, i: int)
    requires
        b.fills_consistently(e, c),
        0 <= i <= c.len(),
    ensures
        b.fills_consistently(e, c.take(i)),
{
    let q = c.take(i);
    assert forall|x: int, y: int| 0 <= y < x < q.len() && peers(e[y], e[x]) implies #[trigger] q[y]
        != #[trigger] q[x] by {
        assert(c[y] != c[x]);
    }
}

/// A digit for the next level extends a consistent fill exactly when it is
/// not among the cell's initial marks and no earlier peer has it.
proof fn lemma_fill_push(b: Board, e: Seq<int>, p: Seq<Number>, n: Number)
    requires
        b.fills_consistently(e, p),
        p.len() < e.len(),
    ensures
        b.fills_consistently(e, p.push(n)) <==> (!b.marks_at(e[p.len() as int]).contains(n) && forall|j: int|
            0 <= j < p.len() && peers(e[j], e[p.len() as int]) ==> p[j] != n),
{
    let k = p.len() as int;
    let q = p.push(n);
    if !b.marks_at(e[k]).contains(n) && forall|j: int| 0 <= j < k && peers(e[j], e[k]) ==> p[j] != n {
        assert forall|i: int| 0 <= i < q.len() implies !b.marks_at(e[i]).contains(#[trigger] q[i]) by {
            if i < k {
                assert(q[i] == p[i]);
            }
        }
        assert forall|x: int, y: int| 0 <= y < x < q.len() && peers(e[y], e[x]) implies #[trigger] q[y]
            != #[trigger] q[x] by {
            if x < k {
                assert(p[y] != p[x]);
            } else {
                assert(q[y] == p[y]);
            }
        }
    }
    if b.fills_consistently(e, q) {
        assert(q[k] == n);
        assert forall|j: int| 0 <= j < k && peers(e[j], e[k]) implies p[j] != n by {
            assert(q[j] != q[k]);
        }
    }
}

impl SudokuGenerator {
    /// Whether exactly one completion exists. The search fills the empty
    /// cells in row-major order, tries digits in increasing order at each
    /// cell, steps back when a cell has no digit left, and stops at the
    /// second completion it finds.
    #[verifier::rlimit(60)]
    pub fn has_one_solution(self) -> (r: bool)
        requires
            exists|i: int| 0 <= i < 81 && self@.cells[i] is None,
        ensures
            r == self@.has_unique_completion(),
    {
        let mut board = self;
        let ghost b0 = board@;
        let ghost e = b0.empties(81);
        proof {
            board.lemma_shaped();
            lemma_empties(b0, 81);
            let i = choose|i: int| 0 <= i < 81 && b0.cells[i] is None;
            assert(e.contains(i));
        }
        let mut empty_indices: Vec<usize> = Vec::new();
        for index in 0..9 * 9usize
            invariant
                b0 == board@,
                b0 == self@,
                b0.cells.len() == 81,
                empty_indices@.len() == b0.empties(index as int).len(),
                forall|j: int|
                    0 <= j < empty_indices@.len() ==> empty_indices@[j] as int == b0.empties(
                        index as int,
                    )[j],
        {
            let row_i = index / 9;
            let col_i = index % 9;
            if board.get_cell(row_i, col_i).is_none() {
                empty_indices.push(index);
            }
            assert(b0.cells[index as int] == b0.at(row_i as int, col_i as int));
        }
        let options = board.get_possible();
        let mut tried = options;
        let mut index: usize = 0;
        let mut solutions: i32 = 0;
        let ghost mut p: Seq<Number> = Seq::empty();
        let ghost mut m: int = 0;
        let ghost mut first: Seq<Number> = Seq::empty();
        proof {
            assert(tracks(board@, b0, e));
            assert forall|j: int| 0 <= j < e.len() implies #[trigger] tried@[row_of(e[j])]@[col_of(e[j])]@
                == tried_expect(b0, e, p, m, j) by {
                lemma_upto_zero(b0.marks_at(e[j]));
            }
            lemma_potential_nonneg(p, m, e.len() as int);
        }
        loop
            invariant
                b0 == self@,
                e == b0.empties(81),
                increasing_cells(e),
                1 <= e.len() <= 81,
                empty_indices@.len() == e.len(),
                forall|j: int| 0 <= j < e.len() ==> empty_indices@[j] as int == #[trigger] e[j],
                forall|r: int, c: int|
                    0 <= r < 9 && 0 <= c < 9 ==> (#[trigger] options@[r]@[c])@ == b0.marks(r, c),
                index <= e.len(),
                p.len() == index,
                0 <= m <= 9,
                b0.fills_consistently(e, p),
                forall|j: int| 0 <= j < index ==> board@.cells[#[trigger] e[j]] == Some(p[j]),
                forall|j: int| index < j < e.len() ==> board@.cells[#[trigger] e[j]] is None,
                index < e.len() ==> (board@.cells[e[index as int]] matches Some(v) ==> v@ <= m
                    && b0.fills_consistently(e, p.push(v))),
                tracks(board@, b0, e),
                forall|j: int|
                    0 <= j < e.len() ==> #[trigger] tried@[row_of(e[j])]@[col_of(e[j])]@
                        == tried_expect(b0, e, p, m, j),
                solutions == 0 || solutions == 1,
                solutions == 0 ==> forall|c: Seq<Number>|
                    #[trigger] b0.is_completion(c) ==> !before(c, p, m, e.len() as int),
                solutions == 1 ==> b0.is_completion(first) && before(first, p, m, e.len() as int)
                    && forall|c: Seq<Number>|
                    #[trigger] b0.is_completion(c) && before(c, p, m, e.len() as int) ==> c == first,
            decreases potential(p, m, e.len() as int),
        {
            let ghost len = e.len() as int;
            let ghost st = board@;
            proof {
                board.lemma_shaped();
            }
            match empty_indices.get(index) {
                None => {
                    let ghost np = p.drop_last();
                    let ghost nm = p.last()@;
                    proof {
                        assert(index == e.len());
                        assert(b0.is_completion(p));
                        lemma_potential_solution(p, len);
                        lemma_lex_irreflexive(p);
                        lemma_number_value(p.last(), p.last());
                        assert(np.push(p.last()) =~= p);
                    }
                    solutions += 1;
                    if solutions > 1 {
                        proof {
                            assert(first != p);
                            if b0.has_unique_completion() {
                                let a = choose|a: Seq<Number>|
                                    #[trigger] b0.is_completion(a) && forall|c: Seq<Number>|
                                        #[trigger] b0.is_completion(c) ==> c == a;
                                assert(first == a);
                                assert(p == a);
                            }
                        }
                        return false;
                    }
                    proof {
                        assert forall|c: Seq<Number>|
                            #[trigger] b0.is_completion(c) && before(c, np, nm, len) implies c == p by {
                            lemma_before_solution(c, p, len);
                        }
                        lemma_before_solution(p, p, len);
                        assert forall|j: int| 0 <= j < e.len() implies #[trigger] tried@[row_of(
                            e[j],
                        )]@[col_of(e[j])]@ == tried_expect(b0, e, np, nm, j) by {
                            assert(tried_expect(b0, e, np, nm, j) == tried_expect(b0, e, p, m, j));
                        }
                        lemma_potential_nonneg(np, nm, len);
                        first = p;
                        p = np;
                        m = nm;
                    }
                    index -= 1;
                    continue;
                },
                Some(cell_i) => {
                    let row_i = *cell_i / 9;
                    let col_i = *cell_i % 9;
                    let ghost k = index as int;
                    let ghost ek = e[k];
                    proof {
                        assert(*cell_i == ek);
                        assert(row_i * 9 + col_i == ek);
                        assert(tried@[row_of(ek)]@[col_of(ek)]@ == tried_expect(b0, e, p, m, k));
                    }
                    match tried[row_i][col_i].get_next() {
                        None => {
                            proof {
                                assert forall|c: Seq<Number>| #[trigger]
                                    b0.is_completion(c) implies (before(c, p, m, len) <==> (lex_lt(
                                    c.take(k),
                                    p,
                                ) || c.take(k) == p)) by {
                                    if c.take(k) == p {
                                        assert(tried@[row_i as int]@[col_i as int]@.contains(c[k]));
                                        assert(!b0.marks_at(e[k]).contains(c[k]));
                                    }
                                }
                            }
                            if index == 0 {
                                proof {
                                    assert forall|c: Seq<Number>| #[trigger]
                                        b0.is_completion(c) implies before(c, p, m, len) by {
                                        assert(c.take(0) =~= p);
                                    }
                                    if solutions == 1 {
                                        assert(b0.is_completion(first) && forall|c: Seq<Number>|
                                            #[trigger] b0.is_completion(c) ==> c == first);
                                    } else {
                                        if b0.has_unique_completion() {
                                            let a = choose|a: Seq<Number>|
                                                #[trigger] b0.is_completion(a) && forall|c: Seq<Number>|
                                                    #[trigger] b0.is_completion(c) ==> c == a;
                                            assert(before(a, p, m, len));
                                        }
                                    }
                                }
                                return solutions == 1;
                            } else {
                                let ghost np = p.drop_last();
                                let ghost nm = p.last()@;
                                tried[row_i][col_i] = options[row_i][col_i];
                                board.clear_cell(row_i, col_i);
                                proof {
                                    lemma_number_value(p.last(), p.last());
                                    assert(np.push(p.last()) =~= p);
                                    if let Some(v) = st.cells[ek] {
                                        assert(b0.fills_consistently(e, p.push(v)));
                                        lemma_fill_push(b0, e, p, v);
                                    }
                                    lemma_tracked_cleared(st, b0, e, k);
                                    lemma_cleared_record(st, row_i as int, col_i as int, 0, 0);
                                    lemma_potential_backtrack(p, m, len);
                                    lemma_upto_zero(b0.marks_at(ek));
                                    assert forall|j: int| 0 <= j < e.len() implies #[trigger] tried@[row_of(
                                        e[j],
                                    )]@[col_of(e[j])]@ == tried_expect(b0, e, np, nm, j) by {
                                        if j != k {
                                            assert(e[j] != ek) by {
                                                if j < k {
                                                    assert(e[j] < e[k]);
                                                } else {
                                                    assert(e[k] < e[j]);
                                                }
                                            }
                                            assert(tried_expect(b0, e, np, nm, j) == tried_expect(b0, e, p, m, j));
                                        }
                                    }
                                    assert forall|j: int| 0 <= j < e.len() && j != k implies board@.cells[#[trigger] e[j]] == st.cells[e[j]] by {
                                        assert(e[j] != ek) by {
                                            if j < k {
                                                assert(e[j] < e[k]);
                                            } else {
                                                assert(e[k] < e[j]);
                                            }
                                        }
                                    }
                                    assert forall|c: Seq<Number>| #[trigger]
                                        b0.is_completion(c) implies (before(c, np, nm, len) <==> before(c, p, m, len)) by {
                                        lemma_before_backtrack(c, p, len);
                                    }
                                    lemma_fill_prefix(b0, e, p, k - 1);
                                    assert(p.take(k - 1) =~= np);
                                    lemma_potential_nonneg(np, nm, len);
                                    p = np;
                                    m = nm;
                                }
                                index -= 1;
                                continue;
                            }
                        },
                        Some(candidate) => {
                            let ghost n = candidate;
                            let ghost old_tried = tried;
                            proof {
                                lemma_number_value(n, n);
                                assert(!b0.marks_at(ek).contains(n));
                                assert(m < n@);
                                assert forall|y: Number| y@ < n@ implies b0.marks_at(ek).contains(y)
                                    || y@ <= m by {
                                    assert(tried@[row_i as int]@[col_i as int]@.contains(y));
                                }
                            }
                            let mut t = tried[row_i][col_i];
                            t.set(candidate);
                            tried[row_i][col_i] = t;
                            proof {
                                assert forall|j: int| 0 <= j < e.len() && j != k implies #[trigger] tried@[row_of(
                                    e[j],
                                )]@[col_of(e[j])] == old_tried@[row_of(e[j])]@[col_of(e[j])] by {
                                    assert(e[j] != ek) by {
                                        if j < k {
                                            assert(e[j] < e[k]);
                                        } else {
                                            assert(e[k] < e[j]);
                                        }
                                    }
                                }
                                assert forall|y: Number| tried@[row_i as int]@[col_i as int]@.contains(y)
                                    <==> (b0.marks_at(ek) + upto(n@)).contains(y) by {
                                    lemma_number_value(y, n);
                                }
                                assert(tried@[row_i as int]@[col_i as int]@ =~= b0.marks_at(ek) + upto(n@));
                                // the write succeeds exactly when the digit extends the fill
                                lemma_fill_push(b0, e, p, n);
                                assert(st.marks_at(ek).contains(n) <==> !b0.fills_consistently(e, p.push(n))) by {
                                    lemma_tracked_marks(st, b0, e, k, n);
                                    if st.marks_at(ek).contains(n) {
                                        let j = choose|j: int|
                                            0 <= j < e.len() && (j == k || peers(e[j], e[k])) && #[trigger] st.cells[e[j]] == Some(n);
                                        if j == k {
                                            lemma_number_value(n, n);
                                        } else if j > k {
                                        } else {
                                            assert(p[j] == n);
                                        }
                                    }
                                    if !b0.fills_consistently(e, p.push(n)) {
                                        let j = choose|j: int| 0 <= j < k && peers(e[j], e[k]) && p[j] == n;
                                        assert(st.cells[e[j]] == Some(n));
                                    }
                                }
                                assert(st.marks(row_i as int, col_i as int) == st.marks_at(ek));
                                if let Some(v) = st.cells[ek] {
                                    lemma_fill_push(b0, e, p, v);
                                }
                                lemma_tracked_cleared(st, b0, e, k);
                                lemma_cleared_record(st, row_i as int, col_i as int, 0, 0);
                            }
                            match board.try_set_cell(row_i, col_i, candidate) {
                                Ok(()) => {
                                    if index < 9 * 9 {
                                        index += 1;
                                    }
                                    proof {
                                        let cl = st.cleared(row_i as int, col_i as int);
                                        lemma_tracked_placed(cl, b0, e, k, n);
                                        lemma_placed_record(cl, row_i as int, col_i as int, n, 0, 0);
                                        let np = p.push(n);
                                        assert forall|j: int| 0 <= j < e.len() && j != k implies board@.cells[#[trigger] e[j]] == st.cells[e[j]] by {
                                            assert(e[j] != ek) by {
                                                if j < k {
                                                    assert(e[j] < e[k]);
                                                } else {
                                                    assert(e[k] < e[j]);
                                                }
                                            }
                                        }
                                        assert(board@.cells[ek] == Some(n));
                                        assert forall|j: int| 0 <= j < e.len() implies #[trigger] tried@[row_of(
                                            e[j],
                                        )]@[col_of(e[j])]@ == tried_expect(b0, e, np, 0, j) by {
                                            if j == k {
                                                assert(np[k] == n);
                                            } else {
                                                assert(tried_expect(b0, e, np, 0, j) == tried_expect(b0, e, p, m, j));
                                            }
                                        }
                                        assert forall|c: Seq<Number>| #[trigger]
                                            b0.is_completion(c) implies (before(c, np, 0, len) <==> before(c, p, m, len)) by {
                                            lemma_before_advance(c, p, n, len);
                                            if c.take(k) == p {
                                                assert(!b0.marks_at(e[k]).contains(c[k]));
                                                lemma_number_value(c[k], n);
                                            }
                                        }
                                        lemma_potential_advance(p, m, n, len);
                                        lemma_potential_nonneg(np, 0, len);
                                        p = np;
                                        m = 0;
                                    }
                                },
                                Err(SudokuError::InvalidValue) => {
                                    board.clear_cell(row_i, col_i);
                                    proof {
                                        assert forall|j: int| 0 <= j < e.len() && j != k implies board@.cells[#[trigger] e[j]] == st.cells[e[j]] by {
                                            assert(e[j] != ek) by {
                                                if j < k {
                                                    assert(e[j] < e[k]);
                                                } else {
                                                    assert(e[k] < e[j]);
                                                }
                                            }
                                        }
                                        assert forall|j: int| 0 <= j < e.len() implies #[trigger] tried@[row_of(
                                            e[j],
                                        )]@[col_of(e[j])]@ == tried_expect(b0, e, p, n@, j) by {
                                            if j != k {
                                                assert(tried_expect(b0, e, p, n@, j) == tried_expect(b0, e, p, m, j));
                                            }
                                        }
                                        assert forall|c: Seq<Number>| #[trigger]
                                            b0.is_completion(c) implies (before(c, p, n@, len) <==> before(c, p, m, len)) by {
                                            if c.take(k) == p && m < c[k]@ <= n@ {
                                                assert(!b0.marks_at(e[k]).contains(c[k]));
                                                if c[k]@ == n@ {
                                                    lemma_number_value(c[k], n);
                                                    lemma_take_push(c, k);
                                                    lemma_fill_prefix(b0, e, c, k + 1);
                                                }
                                            }
                                        }
                                        lemma_potential_retry(p, m, n@, len);
                                        lemma_potential_nonneg(p, n@, len);
                                        m = n@;
                                    }
                                },
                                Err(SudokuError::InvalidCell) => {
                                    proof {
                                        assert(false);
                                    }
                                },
                            }
                        },
                    }
                },
            }
        }
    }
}

} // verus!
