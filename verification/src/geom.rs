//! Board geometry: cells, movement lines, and the bijection between them.
//!
//! A cell `(col, row)` on an `n` x `n` board is stored at the flat index
//! `row * n + col`.  For each direction the board decomposes into `n`
//! movement lines (the columns for `Up`/`Down`, the rows for `Left`/`Right`);
//! within line `k`, offset `m` counts cells starting at the wall that the
//! tiles slide toward.

use vstd::prelude::*;
use vstd::arithmetic::div_mod::{lemma_fundamental_div_mod, lemma_fundamental_div_mod_converse};
use vstd::arithmetic::div_mod::lemma_div_is_ordered;
use vstd::arithmetic::mul::lemma_mul_upper_bound;
use crate::tile::Direction;

verus! {

/// The largest supported board side, so that `n * n` always fits in `usize`.
pub const MAX_SIDE: usize = 65535;

/// Column of the cell at offset `m` from the wall of line `k`.
pub open spec fn line_col(n: int, dir: Direction, k: int, m: int) -> int {
    match dir {
        Direction::Up => k,
        Direction::Down => k,
        Direction::Left => m,
        Direction::Right => n - 1 - m,
    }
}

/// Row of the cell at offset `m` from the wall of line `k`.
pub open spec fn line_row(n: int, dir: Direction, k: int, m: int) -> int {
    match dir {
        Direction::Up => n - 1 - m,
        Direction::Down => m,
        Direction::Left => k,
        Direction::Right => k,
    }
}

/// Flat grid index of the cell at offset `m` from the wall of line `k`.
pub open spec fn line_idx(n: int, dir: Direction, k: int, m: int) -> int {
    line_row(n, dir, k, m) * n + line_col(n, dir, k, m)
}

/// Column of the cell stored at flat index `p`.
pub open spec fn col_of(n: int, p: int) -> int {
    p % n
}

/// Row of the cell stored at flat index `p`.
pub open spec fn row_of(n: int, p: int) -> int {
    p / n
}

/// The movement line that the cell at flat index `p` belongs to.
pub open spec fn line_of(n: int, dir: Direction, p: int) -> int {
    match dir {
        Direction::Up => col_of(n, p),
        Direction::Down => col_of(n, p),
        Direction::Left => row_of(n, p),
        Direction::Right => row_of(n, p),
    }
}

/// The offset from the wall, within its line, of the cell at flat index `p`.
pub open spec fn off_of(n: int, dir: Direction, p: int) -> int {
    match dir {
        Direction::Up => n - 1 - row_of(n, p),
        Direction::Down => row_of(n, p),
        Direction::Left => col_of(n, p),
        Direction::Right => n - 1 - col_of(n, p),
    }
}

/// Splitting a flat index into row and column inverts `row * n + col`.
pub proof fn lemma_cell_decomp(n: int, c: int, r: int)
    requires
        0 <= c < n,
        0 <= r,
    ensures
        (r * n + c) / n == r,
        (r * n + c) % n == c,
{
    lemma_fundamental_div_mod_converse(r * n + c, n, r, c);
}

/// `(k, m)` with `0 <= k < n`, `0 <= m < n` names a valid cell, and the
/// line/offset read back from that cell are `k` and `m` again.
pub proof fn lemma_line_geom(n: int, dir: Direction, k: int, m: int)
    requires
        0 <= k < n,
        0 <= m < n,
    ensures
        0 <= line_col(n, dir, k, m) < n,
        0 <= line_row(n, dir, k, m) < n,
        0 <= line_idx(n, dir, k, m) < n * n,
        line_of(n, dir, line_idx(n, dir, k, m)) == k,
        off_of(n, dir, line_idx(n, dir, k, m)) == m,
        col_of(n, line_idx(n, dir, k, m)) == line_col(n, dir, k, m),
        row_of(n, line_idx(n, dir, k, m)) == line_row(n, dir, k, m),
{
    let c = line_col(n, dir, k, m);
    let r = line_row(n, dir, k, m);
    lemma_cell_decomp(n, c, r);
    assert(r * n + c < n * n) by (nonlinear_arith)
        requires
            0 <= c < n,
            0 <= r < n,
    ;
    assert(r * n + c >= 0) by (nonlinear_arith)
        requires
            0 <= c,
            0 <= r,
            0 < n,
    ;
}

/// Every valid flat index `p` lies in line `line_of(p)` at offset `off_of(p)`,
/// and those coordinates name `p` again.
pub proof fn lemma_idx_geom(n: int, dir: Direction, p: int)
    requires
        0 < n,
        0 <= p < n * n,
    ensures
        0 <= col_of(n, p) < n,
        0 <= row_of(n, p) < n,
        0 <= line_of(n, dir, p) < n,
        0 <= off_of(n, dir, p) < n,
        line_idx(n, dir, line_of(n, dir, p), off_of(n, dir, p)) == p,
{
    lemma_fundamental_div_mod(p, n);
    assert(0 <= p % n < n);
    assert(p / n >= 0) by {
        lemma_div_is_ordered(0, p, n);
    }
    assert(p / n <= (n * n - 1) / n) by {
        lemma_div_is_ordered(p, n * n - 1, n);
    }
    assert((n * n - 1) / n == n - 1) by {
        assert(n * n - 1 == (n - 1) * n + (n - 1)) by (nonlinear_arith)
            requires
                0 < n,
        ;
        lemma_fundamental_div_mod_converse(n * n - 1, n, n - 1, n - 1);
    }
    assert(p == n * (p / n) + p % n);
    assert(row_of(n, p) * n + col_of(n, p) == p) by (nonlinear_arith)
        requires
            p == n * (p / n) + p % n,
            row_of(n, p) == p / n,
            col_of(n, p) == p % n,
    ;
}

/// Computes the flat index of the cell `(col, row)` on a board of side `n`.
pub fn flat_index(n: usize, col: usize, row: usize) -> (p: usize)
    requires
        n <= MAX_SIDE,
        col < n,
        row < n,
    ensures
        p == (row as int) * (n as int) + (col as int),
        p < n * n,
{
    proof {
        assert((row as int) * (n as int) + (col as int) < (n as int) * (n as int))
            by (nonlinear_arith)
            requires
                0 <= (col as int) < (n as int),
                0 <= (row as int) < (n as int),
        ;
        lemma_mul_upper_bound(n as int, MAX_SIDE as int, n as int, MAX_SIDE as int);
    }
    row * n + col
}

/// Computes the flat index of the cell at offset `m` from the wall of line
/// `k`, for a board of side `n`.
pub fn cell_index(n: usize, dir: Direction, k: usize, m: usize) -> (p: usize)
    requires
        n <= MAX_SIDE,
        k < n,
        m < n,
    ensures
        p == line_idx(n as int, dir, k as int, m as int),
        p < n * n,
{
    proof {
        lemma_line_geom(n as int, dir, k as int, m as int);
        lemma_mul_upper_bound(n as int, MAX_SIDE as int, n as int, MAX_SIDE as int);
    }
    let c: usize = match dir {
        Direction::Up => k,
        Direction::Down => k,
        Direction::Left => m,
        Direction::Right => n - 1 - m,
    };
    let r: usize = match dir {
        Direction::Up => n - 1 - m,
        Direction::Down => m,
        Direction::Left => k,
        Direction::Right => k,
    };
    r * n + c
}

} // verus!
