//! The order in which the pairs of distinct indices of a sequence are visited.
//!
//! The cells `(i, j)` of the `n` by `n` grid are walked row by row, each row from
//! column `0` upwards, and the cells of the diagonal are left out. Everything here
//! is stated over mathematical integers; the iterators refer to it in their contracts.

use vstd::prelude::*;
use vstd::arithmetic::div_mod::lemma_fundamental_div_mod;
use vstd::arithmetic::div_mod::lemma_fundamental_div_mod_converse;
use vstd::arithmetic::div_mod::lemma_mod_pos_bound;
use vstd::arithmetic::div_mod::lemma_div_pos_is_pos;

verus! {

/// The column of the `c`-th cell of row `row`, counted without the diagonal cell.
pub open spec fn skip_diagonal(row: int, c: int) -> int {
    if c < row {
        c
    } else {
        c + 1
    }
}

/// How many cells of row `row` lie before column `col`, the diagonal cell not counted.
pub open spec fn column_rank(row: int, col: int) -> int {
    if col > row {
        col - 1
    } else {
        col
    }
}

/// The pairs of one row over a sequence of length `n`: `(row, j)` for every `j`
/// below `n` other than `row`, in ascending order of `j`.
pub open spec fn row_pairs(n: int, row: int) -> Seq<(int, int)> {
    Seq::new((n - 1) as nat, |c: int| (row, skip_diagonal(row, c)))
}

/// The number of ordered pairs of distinct indices below `n`.
pub open spec fn pair_count(n: int) -> int {
    n * (n - 1)
}

/// How many pairs are visited before `(i, j)`; for the end, `(n, 0)`, all of them.
pub open spec fn pair_rank(n: int, i: int, j: int) -> int {
    i * (n - 1) + column_rank(i, j)
}

/// The pair that is visited after `k` others.
pub open spec fn pair_at(n: int, k: int) -> (int, int) {
    (k / (n - 1), skip_diagonal(k / (n - 1), k % (n - 1)))
}

/// Every pair of distinct indices below `n`, in the order of the visit.
pub open spec fn grid_pairs(n: int) -> Seq<(int, int)> {
    Seq::new(pair_count(n) as nat, |k: int| pair_at(n, k))
}

/// Where an iterator stands that has `k` pairs behind it: at the pair of rank `k`,
/// or at the end, `(n, 0)`, once every pair is behind it.
pub open spec fn position_at(n: int, k: int) -> (int, int) {
    if k < pair_count(n) {
        pair_at(n, k)
    } else {
        (n, 0)
    }
}

/// The position one step after the pair `(i, j)`: the second index goes up by one,
/// and by one more where it would meet the first; past the last column the visit
/// goes on with the first cell of the next row, and past the last row it is at
/// the end.
pub open spec fn position_after(n: int, i: int, j: int) -> (int, int) {
    let next = if j + 1 == i {
        j + 2
    } else {
        j + 1
    };
    if next < n {
        (i, next)
    } else if i + 1 < n {
        (i + 1, 0)
    } else {
        (n, 0)
    }
}

/// Whether `(i, j)` is a place where an iterator over `n` elements can stand: a
/// pair of distinct indices, or the end.
pub open spec fn is_position(n: int, i: int, j: int) -> bool {
    (0 <= i < n && 0 <= j < n && i != j) || (i == n && j == 0)
}

/// Away from the diagonal, a column is found again from its rank in the row.
pub proof fn lemma_column_rank_inverse(n: int, row: int, col: int)
    requires
        0 <= row < n,
        0 <= col < n,
        col != row,
    ensures
        0 <= column_rank(row, col) < n - 1,
        skip_diagonal(row, column_rank(row, col)) == col,
{
}

/// A pair of distinct indices is found at its rank.
pub proof fn lemma_pair_at_rank(n: int, i: int, j: int)
    requires
        n >= 2,
        0 <= i < n,
        0 <= j < n,
        i != j,
    ensures
        0 <= pair_rank(n, i, j) < pair_count(n),
        pair_at(n, pair_rank(n, i, j)) == (i, j),
{
    let c = column_rank(i, j);
    let k = pair_rank(n, i, j);
    lemma_fundamental_div_mod_converse(k, n - 1, i, c);
    assert(0 <= i * (n - 1) <= (n - 1) * (n - 1)) by (nonlinear_arith)
        requires
            0 <= i <= n - 1,
            n >= 2,
    ;
    assert((n - 1) * (n - 1) + (n - 1) == n * (n - 1)) by (nonlinear_arith);
}

/// The pair at a rank is a pair of distinct indices, and that rank is its own.
pub proof fn lemma_rank_pair_at(n: int, k: int)
    requires
        n >= 2,
        0 <= k < pair_count(n),
    ensures
        0 <= pair_at(n, k).0 < n,
        0 <= pair_at(n, k).1 < n,
        pair_at(n, k).0 != pair_at(n, k).1,
        pair_rank(n, pair_at(n, k).0, pair_at(n, k).1) == k,
{
    let d = n - 1;
    let q = k / d;
    let r = k % d;
    lemma_fundamental_div_mod(k, d);
    lemma_mod_pos_bound(k, d);
    lemma_div_pos_is_pos(k, d);
    assert(q < n) by (nonlinear_arith)
        requires
            k == d * q + r,
            0 <= r,
            k < n * d,
            d > 0,
    ;
    assert(q * d == d * q) by (nonlinear_arith);
}

/// The pairs that are left in the row of a position are the first of all the pairs
/// that are left from it, and no later pair lies in that row.
pub proof fn lemma_row_is_prefix(n: int, i: int, j: int)
    requires
        n >= 2,
        0 <= i < n,
        0 <= j < n,
        i != j,
    ensures
        ({
            let row = row_pairs(n, i).skip(column_rank(i, j));
            let all = grid_pairs(n).skip(pair_rank(n, i, j));
            &&& 0 < row.len() <= all.len()
            &&& row == all.take(row.len() as int)
            &&& forall|k: int| row.len() <= k < all.len() ==> (#[trigger] all[k]).0 > i
        }),
{
    let d = n - 1;
    let c = column_rank(i, j);
    let row = row_pairs(n, i).skip(c);
    let all = grid_pairs(n).skip(pair_rank(n, i, j));
    lemma_pair_at_rank(n, i, j);
    assert((i + 1) * d == i * d + d) by (nonlinear_arith);
    assert((i + 1) * d <= n * d) by (nonlinear_arith)
        requires
            i + 1 <= n,
            d > 0,
    ;
    assert forall|t: int| 0 <= t < row.len() implies row[t] == all[t] by {
        lemma_fundamental_div_mod_converse(i * d + (c + t), d, i, c + t);
    }
    assert(row =~= all.take(row.len() as int));
    assert forall|k: int| row.len() <= k < all.len() implies (#[trigger] all[k]).0 > i by {
        let m = pair_rank(n, i, j) + k;
        lemma_fundamental_div_mod(m, d);
        lemma_mod_pos_bound(m, d);
        assert(m / d > i) by (nonlinear_arith)
            requires
                m == d * (m / d) + m % d,
                0 <= m % d < d,
                m >= (i + 1) * d,
                d > 0,
        ;
    }
}

/// A position has at most every pair behind it, and every pair only at the end; it
/// is the place that its rank leads to.
pub proof fn lemma_position_rank(n: int, i: int, j: int)
    requires
        n >= 2,
        is_position(n, i, j),
    ensures
        0 <= pair_rank(n, i, j) <= pair_count(n),
        i == n <==> pair_rank(n, i, j) == pair_count(n),
        position_at(n, pair_rank(n, i, j)) == (i, j),
{
    if i < n {
        lemma_pair_at_rank(n, i, j);
    }
}

/// A rank leads to a position, and that rank is the position's own.
pub proof fn lemma_rank_position(n: int, k: int)
    requires
        n >= 2,
        0 <= k <= pair_count(n),
    ensures
        is_position(n, position_at(n, k).0, position_at(n, k).1),
        pair_rank(n, position_at(n, k).0, position_at(n, k).1) == k,
{
    if k < pair_count(n) {
        lemma_rank_pair_at(n, k);
    }
}

/// One step from a pair leads to the position of the next rank.
pub proof fn lemma_position_after(n: int, i: int, j: int)
    requires
        n >= 2,
        0 <= i < n,
        0 <= j < n,
        i != j,
    ensures
        position_at(n, pair_rank(n, i, j) + 1) == position_after(n, i, j),
{
    let after = position_after(n, i, j);
    assert((i + 1) * (n - 1) == i * (n - 1) + (n - 1)) by (nonlinear_arith);
    lemma_position_rank(n, after.0, after.1);
}

/// What is left from a position: nothing at the end, and otherwise the position
/// itself followed by what is left from the rank after it.
pub proof fn lemma_pairs_from_position(n: int, i: int, j: int)
    requires
        n >= 2,
        is_position(n, i, j),
    ensures
        grid_pairs(n).skip(pair_rank(n, i, j)).len() == pair_count(n) - pair_rank(n, i, j),
        i < n ==> grid_pairs(n).skip(pair_rank(n, i, j))[0] == (i, j),
        i < n ==> grid_pairs(n).skip(pair_rank(n, i, j)).drop_first() == grid_pairs(n).skip(
            pair_rank(n, i, j) + 1,
        ),
{
    lemma_position_rank(n, i, j);
}

} // verus!
