//! Facts about complete grids: one exists, and a board with a unique
//! completion has exactly one solved grid agreeing with it.
use crate::bitset::{lemma_number_value, Number};
use crate::generator::{
    col_of, lemma_empties, lemma_marks_records, lemma_peers_units, peers, row_of, unit_of, Board,
};
use crate::sudoku::{agrees_with, digits_of, is_solved_grid};
use vstd::prelude::*;

verus! {

/// Weight of level `j` in a search potential: `11^(len - 1 - j)`.
pub open spec fn weight(j: int, len: int) -> int
    decreases len - j,
{
    if j >= len - 1 {
        1
    } else {
        11 * weight(j + 1, len)
    }
}

pub proof fn lemma_weight(j: int, len: int)
    ensures
        weight(j, len) >= 1,
        j < len - 1 ==> weight(j, len) == 11 * weight(j + 1, len),
    decreases len - j,
{
    if j < len - 1 {
        lemma_weight(j + 1, len);
    }
}

/// The digit with value `v` (1..=9).
pub open spec fn number_of(v: int) -> Number {
    if v == 1 {
        Number::N1
    } else if v == 2 {
        Number::N2
    } else if v == 3 {
        Number::N3
    } else if v == 4 {
        Number::N4
    } else if v == 5 {
        Number::N5
    } else if v == 6 {
        Number::N6
    } else if v == 7 {
        Number::N7
    } else if v == 8 {
        Number::N8
    } else {
        Number::N9
    }
}

pub proof fn lemma_number_of(v: int)
    requires
        1 <= v <= 9,
    ensures
        number_of(v)@ == v,
{
}

/// A grid of 81 digits in which no two peers share a digit.
pub open spec fn full_valid(g: Seq<Number>) -> bool {
    &&& g.len() == 81
    &&& forall|i: int, j: int|
        0 <= i < 81 && 0 <= j < 81 && peers(i, j) ==> #[trigger] g[i] != #[trigger] g[j]
}

/// The value (0..9) of the cell at `r`, `c` in a fixed complete grid: each
/// row is the row three above shifted by one, each band the band above
/// shifted by three.
pub open spec fn pattern(r: int, c: int) -> int {
    (3 * (r % 3) + r / 3 + c) % 9
}

proof fn lemma_mod_distinct(x: int, y: int)
    requires
        0 <= x,
        0 <= y,
        x != y,
        -9 < x - y < 9,
    ensures
        x % 9 != y % 9,
{
    assert(x == 9 * (x / 9) + x % 9);
    assert(y == 9 * (y / 9) + y % 9);
    if x % 9 == y % 9 {
        assert(x - y == 9 * (x / 9 - y / 9));
        assert(x / 9 - y / 9 == 0);
    }
}

proof fn lemma_pattern(r1: int, c1: int, r2: int, c2: int)
    requires
        0 <= r1 < 9,
        0 <= c1 < 9,
        0 <= r2 < 9,
        0 <= c2 < 9,
        r1 != r2 || c1 != c2,
        r1 == r2 || c1 == c2 || (r1 / 3 == r2 / 3 && c1 / 3 == c2 / 3),
    ensures
        pattern(r1, c1) != pattern(r2, c2),
        0 <= pattern(r1, c1) < 9,
{
    let x1 = 3 * (r1 % 3) + r1 / 3 + c1;
    let x2 = 3 * (r2 % 3) + r2 / 3 + c2;
    if r1 == r2 {
        lemma_mod_distinct(x1, x2);
    } else if c1 == c2 {
        assert(r1 == 3 * (r1 / 3) + r1 % 3);
        assert(r2 == 3 * (r2 / 3) + r2 % 3);
        lemma_mod_distinct(x1, x2);
    } else {
        assert(r1 == 3 * (r1 / 3) + r1 % 3);
        assert(r2 == 3 * (r2 / 3) + r2 % 3);
        assert(c1 == 3 * (c1 / 3) + c1 % 3);
        assert(c2 == 3 * (c2 / 3) + c2 % 3);
        lemma_mod_distinct(x1, x2);
    }
}

/// A complete grid that breaks no rule.
pub open spec fn canonical_grid() -> Seq<Number> {
    Seq::new(81, |i: int| number_of(pattern(row_of(i), col_of(i)) + 1))
}

/// Some complete grid breaks no rule.
pub proof fn lemma_canonical_grid()
    ensures
        full_valid(canonical_grid()),
{
    let g = canonical_grid();
    assert forall|i: int, j: int|
        0 <= i < 81 && 0 <= j < 81 && peers(i, j) implies #[trigger] g[i] != #[trigger] g[j] by {
        lemma_pattern(row_of(i), col_of(i), row_of(j), col_of(j));
        lemma_pattern(row_of(j), col_of(j), row_of(i), col_of(i));
        lemma_number_of(pattern(row_of(i), col_of(i)) + 1);
        lemma_number_of(pattern(row_of(j), col_of(j)) + 1);
    }
}

/// The digits that grid `g` puts in the cells `e`.
spec fn read_fill(g: Seq<Option<u8>>, e: Seq<int>) -> Seq<Number> {
    Seq::new(e.len(), |j: int| number_of(g[e[j]]->0 as int))
}

/// A solved grid that agrees with a well-formed board fills its empty cells
/// consistently.
proof fn lemma_read_fill_completes(b: Board, g: Seq<Option<u8>>)
    requires
        b.wf(),
        is_solved_grid(g),
        agrees_with(digits_of(b), g),
    ensures
        b.is_completion(read_fill(g, b.empties(81))),
{
    let e = b.empties(81);
    lemma_empties(b, 81);
    let a = read_fill(g, e);
    assert forall|i: int| 0 <= i < a.len() implies !b.marks_at(e[i]).contains(#[trigger] a[i]) by {
        let x = e[i];
        let r = row_of(x);
        let c = col_of(x);
        assert(r * 9 + c == x);
        lemma_marks_records(b, r, c);
        let v = g[x]->0;
        assert(g[x] is Some);
        lemma_number_of(v as int);
        if b.marks_at(x).contains(a[i]) {
            let kind = choose|kind: int|
                0 <= kind < 3 && #[trigger] b.record(kind, unit_of(kind, r * 9 + c)).contains(a[i]);
            assert(b.record(kind, unit_of(kind, x)) == b.digits_in(kind, unit_of(kind, x)));
            assert(b.digits_in(kind, unit_of(kind, x)).contains(a[i]));
            let y = choose|y: int|
                0 <= y < 81 && unit_of(kind, y) == unit_of(kind, x) && b.cells[y] == Some(a[i]);
            assert(y != x);
            lemma_peers_units(y, x);
            assert(digits_of(b)[y] == Some(a[i]@ as u8));
            assert(g[y] == g[x]);
        }
    }
    assert forall|x: int, y: int|
        #![trigger a[x], a[y]]
        0 <= y < x < a.len() && peers(e[y], e[x]) implies a[y] != a[x] by {
        assert(g[e[y]] != g[e[x]]);
        assert(g[e[x]] is Some && g[e[y]] is Some);
        lemma_number_of(g[e[x]]->0 as int);
        lemma_number_of(g[e[y]]->0 as int);
    }
}

/// A well-formed board with exactly one completion has exactly one solved
/// grid that agrees with it.
pub proof fn lemma_unique_grid(b: Board, sol: Seq<Option<u8>>, s: Seq<Option<u8>>)
    requires
        b.wf(),
        b.has_unique_completion(),
        is_solved_grid(sol),
        is_solved_grid(s),
        agrees_with(digits_of(b), sol),
        agrees_with(digits_of(b), s),
    ensures
        s == sol,
{
    let e = b.empties(81);
    lemma_empties(b, 81);
    lemma_read_fill_completes(b, sol);
    lemma_read_fill_completes(b, s);
    let a = choose|a: Seq<Number>|
        #[trigger] b.is_completion(a) && forall|c: Seq<Number>| #[trigger] b.is_completion(c) ==> c == a;
    assert(read_fill(sol, e) == a);
    assert(read_fill(s, e) == a);
    assert forall|i: int| 0 <= i < 81 implies s[i] == sol[i] by {
        if b.cells[i] is Some {
            assert(digits_of(b)[i] is Some);
        } else {
            assert(e.contains(i));
            let j = choose|j: int| 0 <= j < e.len() && e[j] == i;
            assert(read_fill(s, e)[j] == read_fill(sol, e)[j]);
            assert(s[i] is Some && sol[i] is Some);
            lemma_number_of(s[i]->0 as int);
            lemma_number_of(sol[i]->0 as int);
        }
    }
    assert(s =~= sol);
}

/// The grid that keeps the digits of `b` and puts `c[j]` in the empty cell
/// `e[j]`.
spec fn fill_grid(b: Board, e: Seq<int>, c: Seq<Number>) -> Seq<Option<u8>> {
    Seq::new(
        81,
        |i: int|
            match b.cells[i] {
                Some(n) => Some(n@ as u8),
                None => Some(c[choose|j: int| 0 <= j < e.len() && e[j] == i]@ as u8),
            },
    )
}

/// Some solved grid other than `sol` agrees with `g`.
pub open spec fn has_rival(g: Seq<Option<u8>>, sol: Seq<Option<u8>>) -> bool {
    exists|s: Seq<Option<u8>>| #[trigger] is_solved_grid(s) && agrees_with(g, s) && s != sol
}

/// The grid that a completion of a well-formed board fills in is solved and
/// agrees with the board.
proof fn lemma_completion_grid(b: Board, c: Seq<Number>)
    requires
        b.wf(),
        b.is_completion(c),
    ensures
        is_solved_grid(fill_grid(b, b.empties(81), c)),
        agrees_with(digits_of(b), fill_grid(b, b.empties(81), c)),
{
    let e = b.empties(81);
    lemma_empties(b, 81);
    let s = fill_grid(b, e, c);
    assert forall|i: int| 0 <= i < 81 && b.cells[i] is None implies {
        let j = choose|j: int| 0 <= j < e.len() && e[j] == i;
        0 <= j < e.len() && e[j] == i
    } by {
        assert(e.contains(i));
    }
    assert forall|i: int| 0 <= i < 81 implies (#[trigger] s[i] matches Some(v) && 1 <= v <= 9) by {
        if let Some(n) = b.cells[i] {
            lemma_number_value(n, n);
        } else {
            let j = choose|j: int| 0 <= j < e.len() && e[j] == i;
            lemma_number_value(c[j], c[j]);
        }
    }
    assert forall|i: int, j: int| 0 <= i < 81 && 0 <= j < 81 && peers(i, j) implies #[trigger] s[i]
        != #[trigger] s[j] by {
        lemma_peers_units(i, j);
        let kind = choose|kind: int| 0 <= kind < 3 && #[trigger] unit_of(kind, i) == unit_of(kind, j);
        match (b.cells[i], b.cells[j]) {
            (Some(n), Some(m)) => {
                assert(b.cells[i] != b.cells[j]);
                lemma_number_value(n, m);
            },
            (Some(n), None) => {
                let q = choose|q: int| 0 <= q < e.len() && e[q] == j;
                lemma_number_value(n, c[q]);
                lemma_marks_records(b, row_of(j), col_of(j));
                assert(row_of(j) * 9 + col_of(j) == j);
                assert(b.digits_in(kind, unit_of(kind, j)).contains(n));
                assert(b.record(kind, unit_of(kind, j)) == b.digits_in(kind, unit_of(kind, j)));
                assert(b.marks_at(j).contains(n));
                assert(!b.marks_at(e[q]).contains(c[q]));
            },
            (None, Some(m)) => {
                let q = choose|q: int| 0 <= q < e.len() && e[q] == i;
                lemma_number_value(m, c[q]);
                lemma_marks_records(b, row_of(i), col_of(i));
                assert(row_of(i) * 9 + col_of(i) == i);
                assert(b.digits_in(kind, unit_of(kind, i)).contains(m));
                assert(b.record(kind, unit_of(kind, i)) == b.digits_in(kind, unit_of(kind, i)));
                assert(b.marks_at(i).contains(m));
                assert(!b.marks_at(e[q]).contains(c[q]));
            },
            (None, None) => {
                let q1 = choose|q: int| 0 <= q < e.len() && e[q] == i;
                let q2 = choose|q: int| 0 <= q < e.len() && e[q] == j;
                lemma_number_value(c[q1], c[q2]);
                if q1 < q2 {
                    assert(c[q1] != c[q2]);
                } else {
                    assert(c[q2] != c[q1]);
                }
            },
        }
    }
    assert(is_solved_grid(s));
    assert forall|i: int| 0 <= i < 81 && (#[trigger] digits_of(b)[i]) is Some implies digits_of(b)[i]
        == s[i] by {
    }
}

/// A well-formed board without a unique completion, that a solved grid
/// agrees with, has a second solved grid agreeing with it.
pub proof fn lemma_second_grid(b: Board, sol: Seq<Option<u8>>)
    requires
        b.wf(),
        !b.has_unique_completion(),
        is_solved_grid(sol),
        agrees_with(digits_of(b), sol),
    ensures
        has_rival(digits_of(b), sol),
{
    let e = b.empties(81);
    lemma_empties(b, 81);
    lemma_read_fill_completes(b, sol);
    let a = read_fill(sol, e);
    assert(exists|c: Seq<Number>| #[trigger] b.is_completion(c) && c != a);
    let c = choose|c: Seq<Number>| #[trigger] b.is_completion(c) && c != a;
    let s = fill_grid(b, e, c);
    lemma_completion_grid(b, c);
    assert forall|i: int| 0 <= i < 81 && b.cells[i] is None implies {
        let j = choose|j: int| 0 <= j < e.len() && e[j] == i;
        0 <= j < e.len() && e[j] == i
    } by {
        assert(e.contains(i));
    }
    assert(s != sol) by {
        assert(exists|q: int| 0 <= q < e.len() && c[q] != a[q]) by {
            if forall|q: int| 0 <= q < e.len() ==> c[q] == a[q] {
                assert(c =~= a);
            }
        }
        let q = choose|q: int| 0 <= q < e.len() && c[q] != a[q];
        let i = e[q];
        let q2 = choose|j: int| 0 <= j < e.len() && e[j] == i;
        if q2 != q {
            if q2 < q {
                assert(e[q2] < e[q]);
            } else {
                assert(e[q] < e[q2]);
            }
        }
        assert(sol[i] is Some);
        lemma_number_of(sol[i]->0 as int);
        lemma_number_value(c[q], a[q]);
    }
}

/// Taking givens away never brings a board with more than one completion
/// down to exactly one: if `g` has some completion but not exactly one, and
/// every digit of `h` stands in the same cell of `g`, then `h` does not have
/// exactly one completion either.
pub proof fn lemma_fewer_givens_not_unique(g: Board, h: Board)
    requires
        g.wf(),
        h.wf(),
        forall|i: int| 0 <= i < 81 && (#[trigger] h.cells[i]) is Some ==> h.cells[i] == g.cells[i],
        exists|c: Seq<Number>| #[trigger] g.is_completion(c),
        !g.has_unique_completion(),
    ensures
        !h.has_unique_completion(),
{
    let c = choose|c: Seq<Number>| #[trigger] g.is_completion(c);
    let sol = fill_grid(g, g.empties(81), c);
    lemma_completion_grid(g, c);
    lemma_second_grid(g, sol);
    let s = choose|s: Seq<Option<u8>>| #[trigger] is_solved_grid(s) && agrees_with(digits_of(g), s) && s != sol;
    assert(agrees_with(digits_of(h), sol)) by {
        assert forall|i: int| 0 <= i < 81 && (#[trigger] digits_of(h)[i]) is Some implies digits_of(h)[i] == sol[i] by {
            assert(digits_of(g)[i] is Some);
        }
    }
    assert(agrees_with(digits_of(h), s)) by {
        assert forall|i: int| 0 <= i < 81 && (#[trigger] digits_of(h)[i]) is Some implies digits_of(h)[i] == s[i] by {
            assert(digits_of(g)[i] is Some);
        }
    }
    if h.has_unique_completion() {
        lemma_unique_grid(h, sol, s);
    }
}

/// Fewer givens keep every rival solved grid.
pub proof fn lemma_rival_fewer_givens(g: Seq<Option<u8>>, h: Seq<Option<u8>>, sol: Seq<Option<u8>>)
    requires
        has_rival(g, sol),
        forall|i: int| 0 <= i < 81 && (#[trigger] h[i]) is Some ==> h[i] == g[i],
    ensures
        has_rival(h, sol),
{
    let s = choose|s: Seq<Option<u8>>| #[trigger] is_solved_grid(s) && agrees_with(g, s) && s != sol;
    assert(agrees_with(h, s));
}

} // verus!
