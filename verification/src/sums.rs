//! Summing tile values over the board, and the partition of that sum into
//! per-line sums: the total value on the grid equals the sum, over the `n`
//! movement lines of any direction, of the values on each line.

use vstd::prelude::*;
use vstd::arithmetic::mul::lemma_mul_is_distributive_sub_other_way;
use crate::tile::{Tile, Direction};
use crate::geom::line_idx;

verus! {

/// The value contributed by one cell: the tile's value, or 0 when empty.
pub open spec fn opt_val(o: Option<Tile>) -> int {
    match o {
        Some(t) => t.value as int,
        None => 0,
    }
}

/// Sum of the cell values at flat indices `lo <= p < hi`.
pub open spec fn sum_range(g: Seq<Option<Tile>>, lo: int, hi: int) -> int
    decreases hi - lo,
{
    if hi <= lo {
        0
    } else {
        sum_range(g, lo, hi - 1) + opt_val(g[hi - 1])
    }
}

/// Sum of all cell values of an `n` x `n` grid.
pub open spec fn grid_sum(g: Seq<Option<Tile>>, n: int) -> int {
    sum_range(g, 0, n * n)
}

pub proof fn lemma_sum_range_split(g: Seq<Option<Tile>>, lo: int, mid: int, hi: int)
    requires
        lo <= mid <= hi,
    ensures
        sum_range(g, lo, hi) == sum_range(g, lo, mid) + sum_range(g, mid, hi),
    decreases hi - mid,
{
    if hi > mid {
        lemma_sum_range_split(g, lo, mid, hi - 1);
    }
}

pub proof fn lemma_sum_range_first(g: Seq<Option<Tile>>, lo: int, hi: int)
    requires
        lo < hi,
    ensures
        sum_range(g, lo, hi) == opt_val(g[lo]) + sum_range(g, lo + 1, hi),
{
    lemma_sum_range_split(g, lo, lo + 1, hi);
    assert(sum_range(g, lo, lo) == 0);
    assert(sum_range(g, lo, lo + 1) == sum_range(g, lo, lo) + opt_val(g[lo]));
}

/// Sum of the cell values of column `k` over rows `rlo <= r < rhi`.
pub open spec fn col_sum_range(g: Seq<Option<Tile>>, n: int, k: int, rlo: int, rhi: int) -> int
    decreases rhi - rlo,
{
    if rhi <= rlo {
        0
    } else {
        col_sum_range(g, n, k, rlo, rhi - 1) + opt_val(g[(rhi - 1) * n + k])
    }
}

pub proof fn lemma_col_sum_split(g: Seq<Option<Tile>>, n: int, k: int, rlo: int, rmid: int, rhi: int)
    requires
        rlo <= rmid <= rhi,
    ensures
        col_sum_range(g, n, k, rlo, rhi) == col_sum_range(g, n, k, rlo, rmid) + col_sum_range(
            g,
            n,
            k,
            rmid,
            rhi,
        ),
    decreases rhi - rmid,
{
    if rhi > rmid {
        lemma_col_sum_split(g, n, k, rlo, rmid, rhi - 1);
    }
}

pub proof fn lemma_col_sum_first(g: Seq<Option<Tile>>, n: int, k: int, rlo: int, rhi: int)
    requires
        rlo < rhi,
    ensures
        col_sum_range(g, n, k, rlo, rhi) == opt_val(g[rlo * n + k]) + col_sum_range(
            g,
            n,
            k,
            rlo + 1,
            rhi,
        ),
{
    lemma_col_sum_split(g, n, k, rlo, rlo + 1, rhi);
    assert(col_sum_range(g, n, k, rlo, rlo) == 0);
    assert(col_sum_range(g, n, k, rlo, rlo + 1) == col_sum_range(g, n, k, rlo, rlo) + opt_val(
        g[rlo * n + k],
    ));
}

/// Sum of the first `r` rows of each of the first `k` columns.
pub open spec fn cols_acc(g: Seq<Option<Tile>>, n: int, r: int, k: int) -> int
    decreases k,
{
    if k <= 0 {
        0
    } else {
        cols_acc(g, n, r, k - 1) + col_sum_range(g, n, k - 1, 0, r)
    }
}

pub proof fn lemma_cols_acc_zero(g: Seq<Option<Tile>>, n: int, k: int)
    ensures
        cols_acc(g, n, 0, k) == 0,
    decreases k,
{
    if k > 0 {
        lemma_cols_acc_zero(g, n, k - 1);
    }
}

/// Adding row `r` to the first `k` columns adds the row segment `[r*n, r*n+k)`.
pub proof fn lemma_cols_acc_step(g: Seq<Option<Tile>>, n: int, r: int, k: int)
    requires
        0 <= r,
        0 <= k,
    ensures
        cols_acc(g, n, r + 1, k) == cols_acc(g, n, r, k) + sum_range(g, r * n, r * n + k),
    decreases k,
{
    if k > 0 {
        lemma_cols_acc_step(g, n, r, k - 1);
    }
}

/// The first `r` full rows, summed cell by cell, equal the column sums.
pub proof fn lemma_rows_to_cols(g: Seq<Option<Tile>>, n: int, r: int)
    requires
        0 <= r,
        1 <= n,
    ensures
        sum_range(g, 0, r * n) == cols_acc(g, n, r, n),
    decreases r,
{
    if r == 0 {
        lemma_cols_acc_zero(g, n, n);
    } else {
        lemma_rows_to_cols(g, n, r - 1);
        assert((r - 1) * n == r * n - n) by {
            lemma_mul_is_distributive_sub_other_way(n, r, 1);
        }
        lemma_sum_range_split(g, 0, (r - 1) * n, r * n);
        lemma_cols_acc_step(g, n, r - 1, n);
    }
}

/// Sum of the cell values of line `k`, offsets `0 <= m' < m` from the wall.
pub open spec fn line_sum_upto(
    g: Seq<Option<Tile>>,
    n: int,
    dir: Direction,
    k: int,
    m: int,
) -> int
    decreases m,
{
    if m <= 0 {
        0
    } else {
        line_sum_upto(g, n, dir, k, m - 1) + opt_val(g[line_idx(n, dir, k, m - 1)])
    }
}

/// Sum of the cell values of the whole line `k`.
pub open spec fn line_sum(g: Seq<Option<Tile>>, n: int, dir: Direction, k: int) -> int {
    line_sum_upto(g, n, dir, k, n)
}

/// Sum of the cell values of the first `k` lines.
pub open spec fn lines_acc(g: Seq<Option<Tile>>, n: int, dir: Direction, k: int) -> int
    decreases k,
{
    if k <= 0 {
        0
    } else {
        lines_acc(g, n, dir, k - 1) + line_sum(g, n, dir, k - 1)
    }
}

/// Sum of the cell values of all `n` lines of a direction.
pub open spec fn lines_sum(g: Seq<Option<Tile>>, n: int, dir: Direction) -> int {
    lines_acc(g, n, dir, n)
}

proof fn lemma_line_sum_row(g: Seq<Option<Tile>>, n: int, dir: Direction, k: int, m: int)
    requires
        0 <= m <= n,
        0 <= k,
        dir == Direction::Left || dir == Direction::Right,
    ensures
        dir == Direction::Left ==> line_sum_upto(g, n, dir, k, m) == sum_range(
            g,
            k * n,
            k * n + m,
        ),
        dir == Direction::Right ==> line_sum_upto(g, n, dir, k, m) == sum_range(
            g,
            k * n + n - m,
            k * n + n,
        ),
    decreases m,
{
    if m > 0 {
        lemma_line_sum_row(g, n, dir, k, m - 1);
        if dir == Direction::Right {
            assert(line_idx(n, dir, k, m - 1) == k * n + n - m);
            lemma_sum_range_first(g, k * n + n - m, k * n + n);
        }
    }
}

proof fn lemma_line_sum_col(g: Seq<Option<Tile>>, n: int, dir: Direction, k: int, m: int)
    requires
        0 <= m <= n,
        0 <= k,
        dir == Direction::Up || dir == Direction::Down,
    ensures
        dir == Direction::Down ==> line_sum_upto(g, n, dir, k, m) == col_sum_range(g, n, k, 0, m),
        dir == Direction::Up ==> line_sum_upto(g, n, dir, k, m) == col_sum_range(
            g,
            n,
            k,
            n - m,
            n,
        ),
    decreases m,
{
    if m > 0 {
        lemma_line_sum_col(g, n, dir, k, m - 1);
        if dir == Direction::Up {
            assert(line_idx(n, dir, k, m - 1) == (n - m) * n + k);
            lemma_col_sum_first(g, n, k, n - m, n);
        }
    }
}

proof fn lemma_lines_acc_rows(g: Seq<Option<Tile>>, n: int, dir: Direction, k: int)
    requires
        0 <= k,
        1 <= n,
        dir == Direction::Left || dir == Direction::Right,
    ensures
        lines_acc(g, n, dir, k) == sum_range(g, 0, k * n),
    decreases k,
{
    if k == 0 {
        assert(k * n == 0) by (nonlinear_arith)
            requires
                k == 0,
        ;
    } else {
        lemma_lines_acc_rows(g, n, dir, k - 1);
        lemma_line_sum_row(g, n, dir, k - 1, n);
        assert((k - 1) * n == k * n - n) by {
            lemma_mul_is_distributive_sub_other_way(n, k, 1);
        }
        lemma_sum_range_split(g, 0, (k - 1) * n, k * n);
        assert(line_sum(g, n, dir, k - 1) == sum_range(g, (k - 1) * n, k * n));
        assert(lines_acc(g, n, dir, k) == lines_acc(g, n, dir, k - 1) + line_sum(g, n, dir, k - 1));
    }
}

proof fn lemma_lines_acc_cols(g: Seq<Option<Tile>>, n: int, dir: Direction, k: int)
    requires
        0 <= k,
        1 <= n,
        dir == Direction::Up || dir == Direction::Down,
    ensures
        lines_acc(g, n, dir, k) == cols_acc(g, n, n, k),
    decreases k,
{
    if k > 0 {
        lemma_lines_acc_cols(g, n, dir, k - 1);
        lemma_line_sum_col(g, n, dir, k - 1, n);
    }
}

/// The partition: the grid total equals the sum of the per-line sums,
/// whichever direction's lines are used.
pub proof fn lemma_grid_sum_lines(g: Seq<Option<Tile>>, n: int, dir: Direction)
    requires
        1 <= n,
    ensures
        grid_sum(g, n) == lines_sum(g, n, dir),
{
    match dir {
        Direction::Left | Direction::Right => {
            lemma_lines_acc_rows(g, n, dir, n);
        },
        Direction::Up | Direction::Down => {
            lemma_lines_acc_cols(g, n, dir, n);
            lemma_rows_to_cols(g, n, n);
        },
    }
}

} // verus!
