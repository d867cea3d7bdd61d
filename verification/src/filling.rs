//! Facts behind `generate_puzzle`: the measures its loops decrease and what
//! the marks of the cell being filled hold.
use crate::bitset::{lemma_digit_set_size, BitSet, Number};
use crate::generator::{
    col_of, lemma_marks_records, lemma_peers_units, peers, row_of, unit_of, Board,
};
use crate::grids::{full_valid, lemma_weight, weight};
use vstd::prelude::*;

verus! {

/// No rule-abiding complete grid starts with the digits `q` followed by `x`.
pub open spec fn dead_end(q: Seq<Number>, x: Number) -> bool {
    forall|g: Seq<Number>| #[trigger] full_valid(g) && g.take(q.len() as int) == q ==> g[q.len() as int] != x
}

/// How many digits have been tried at cell `j`.
pub open spec fn tried_len(t: [[BitSet; 9]; 9], j: int) -> int {
    t@[row_of(j)]@[col_of(j)]@.len() as int
}

/// The measure of the filling loop over its first `n` cells.
pub open spec fn fill_potential(t: [[BitSet; 9]; 9], n: int) -> int
    decreases n,
{
    if n <= 0 {
        0
    } else {
        fill_potential(t, n - 1) + (10 - tried_len(t, n - 1)) * weight(n - 1, 81)
    }
}

/// The measure over the first `n` cells depends on those cells only, and
/// is never negative.
pub proof fn lemma_fill_potential(t: [[BitSet; 9]; 9], u: [[BitSet; 9]; 9], n: int)
    requires
        0 <= n <= 81,
        forall|j: int| 0 <= j < n ==> #[trigger] tried_len(t, j) == tried_len(u, j),
    ensures
        fill_potential(t, n) == fill_potential(u, n),
        fill_potential(t, n) >= 0,
    decreases n,
{
    if n > 0 {
        lemma_fill_potential(t, u, n - 1);
        lemma_weight(n - 1, 81);
        lemma_digit_set_size(t@[row_of(n - 1)]@[col_of(n - 1)]@);
        let d = 10 - tried_len(t, n - 1);
        let w = weight(n - 1, 81);
        assert(d * w >= 0) by (nonlinear_arith)
            requires
                d >= 1,
                w >= 1,
        ;
    }
}

/// Stepping back from cell `k` lowers the measure.
pub proof fn lemma_fill_backtrack(t: [[BitSet; 9]; 9], u: [[BitSet; 9]; 9], k: int)
    requires
        0 < k < 81,
        forall|j: int| 0 <= j < k ==> #[trigger] tried_len(t, j) == tried_len(u, j),
    ensures
        0 <= fill_potential(u, k) < fill_potential(t, k + 1),
{
    lemma_fill_potential(t, u, k);
    lemma_weight(k, 81);
    lemma_digit_set_size(t@[row_of(k)]@[col_of(k)]@);
    let d = 10 - tried_len(t, k);
    let w = weight(k, 81);
    assert(d * w >= 1) by (nonlinear_arith)
        requires
            d >= 1,
            w >= 1,
    ;
}

/// Moving on from cell `k` after trying one more digit there lowers the
/// measure.
pub proof fn lemma_fill_advance(t: [[BitSet; 9]; 9], u: [[BitSet; 9]; 9], k: int)
    requires
        0 <= k < 80,
        forall|j: int| 0 <= j < k ==> #[trigger] tried_len(t, j) == tried_len(u, j),
        tried_len(u, k) > tried_len(t, k),
        tried_len(u, k + 1) == 0,
    ensures
        0 <= fill_potential(u, k + 2) < fill_potential(t, k + 1),
{
    lemma_fill_potential(t, u, k);
    lemma_fill_potential(u, u, k + 2);
    lemma_weight(k, 81);
    lemma_weight(k + 1, 81);
    let w = weight(k, 81);
    let w1 = weight(k + 1, 81);
    let a = tried_len(t, k);
    let b = tried_len(u, k);
    assert(fill_potential(u, k + 1) == fill_potential(u, k) + (10 - b) * w);
    assert(fill_potential(u, k + 2) == fill_potential(u, k + 1) + 10 * w1);
    assert(fill_potential(t, k + 1) == fill_potential(t, k) + (10 - a) * w);
    assert((10 - b) * w + 10 * w1 < (10 - a) * w) by (nonlinear_arith)
        requires
            a < b,
            w == 11 * w1,
            w1 >= 1,
    ;
}

/// On a well-formed board whose first `k` cells hold `p` and whose cells
/// after `k` are empty, cell `k` is marked with `n` exactly when an earlier
/// peer holds `n` or cell `k` itself does.
pub proof fn lemma_prefix_marks(st: Board, p: Seq<Number>, n: Number)
    requires
        st.wf(),
        p.len() < 81,
        forall|j: int| 0 <= j < p.len() ==> st.cells[j] == Some(#[trigger] p[j]),
        forall|j: int| p.len() < j < 81 ==> (#[trigger] st.cells[j]) is None,
    ensures
        st.marks_at(p.len() as int).contains(n) <==> (st.cells[p.len() as int] == Some(n) || exists|j: int|
            0 <= j < p.len() && peers(j, p.len() as int) && #[trigger] p[j] == n),
{
    let k = p.len() as int;
    let r = row_of(k);
    let c = col_of(k);
    assert(r * 9 + c == k);
    lemma_marks_records(st, r, c);
    if st.marks_at(k).contains(n) {
        let kind = choose|kind: int|
            0 <= kind < 3 && #[trigger] st.record(kind, unit_of(kind, r * 9 + c)).contains(n);
        assert(st.record(kind, unit_of(kind, k)) == st.digits_in(kind, unit_of(kind, k)));
        let y = choose|y: int| 0 <= y < 81 && unit_of(kind, y) == unit_of(kind, k) && st.cells[y] == Some(n);
        if y != k {
            lemma_peers_units(y, k);
            assert(y < k);
            assert(p[y] == n);
        }
    }
    if st.cells[k] == Some(n) {
        assert(st.digits_in(0, unit_of(0, k)).contains(n));
        assert(st.record(0, unit_of(0, k)) == st.digits_in(0, unit_of(0, k)));
    }
    if exists|j: int| 0 <= j < k && peers(j, k) && #[trigger] p[j] == n {
        let j = choose|j: int| 0 <= j < k && peers(j, k) && #[trigger] p[j] == n;
        lemma_peers_units(j, k);
        let kind = choose|kind: int| 0 <= kind < 3 && #[trigger] unit_of(kind, j) == unit_of(kind, k);
        assert(st.digits_in(kind, unit_of(kind, k)).contains(n));
        assert(st.record(kind, unit_of(kind, k)) == st.digits_in(kind, unit_of(kind, k)));
    }
}

/// How many digits are still untried over the first `n` sets.
pub open spec fn untried(t: [BitSet; 9], n: int) -> int
    decreases n,
{
    if n <= 0 {
        0
    } else {
        untried(t, n - 1) + (9 - t@[n - 1]@.len())
    }
}

/// The untried count never drops below 0.
pub proof fn lemma_untried_nonneg(t: [BitSet; 9], n: int)
    requires
        0 <= n <= 9,
    ensures
        untried(t, n) >= 0,
    decreases n,
{
    if n > 0 {
        lemma_untried_nonneg(t, n - 1);
        lemma_digit_set_size(t@[n - 1]@);
    }
}

/// Trying a new digit in one set lowers the untried count by one.
pub proof fn lemma_untried(t: [BitSet; 9], u: [BitSet; 9], r: int, n: int)
    requires
        0 <= r < 9,
        0 <= n <= 9,
        forall|i: int| 0 <= i < 9 && i != r ==> #[trigger] u@[i]@ == t@[i]@,
        u@[r]@.len() == t@[r]@.len() + 1,
    ensures
        untried(u, n) == untried(t, n) - (if r < n {
            1int
        } else {
            0int
        }),
    decreases n,
{
    if n > 0 {
        lemma_untried(t, u, r, n - 1);
    }
}

} // verus!
