//! Direction arithmetic on the 8x8 row-major grid.
//!
//! A cell index `pos` in `0..64` sits at row `pos / 8` and column `pos % 8`.
//! The eight scan directions are encoded as the numbers `0..8`; each one is
//! a (row delta, column delta) pair, and stepping `k` cells in a direction
//! is bounds-checked against both board edges, so a step can never wrap
//! from one row into another.

use vstd::prelude::*;

verus! {

/// Row of a cell index in the row-major layout.
pub open spec fn row_of(pos: int) -> int {
    pos / 8
}

/// Column of a cell index in the row-major layout.
pub open spec fn col_of(pos: int) -> int {
    pos % 8
}

/// Row delta of a scan direction: 0 east, 1 west, 2 south, 3 north,
/// 4 north-west, 5 north-east, 6 south-west, 7 south-east.
pub open spec fn dir_dr(dir: int) -> int {
    if dir == 0 {
        0
    } else if dir == 1 {
        0
    } else if dir == 2 {
        1
    } else if dir == 3 {
        -1
    } else if dir == 4 {
        -1
    } else if dir == 5 {
        -1
    } else if dir == 6 {
        1
    } else {
        1
    }
}

/// Column delta of a scan direction (same numbering as `dir_dr`).
pub open spec fn dir_dc(dir: int) -> int {
    if dir == 0 {
        1
    } else if dir == 1 {
        -1
    } else if dir == 2 {
        0
    } else if dir == 3 {
        0
    } else if dir == 4 {
        -1
    } else if dir == 5 {
        1
    } else if dir == 6 {
        -1
    } else {
        1
    }
}

/// Row reached after `k` steps from `pos` in direction `dir`.
pub open spec fn step_row(pos: int, dir: int, k: int) -> int {
    row_of(pos) + k * dir_dr(dir)
}

/// Column reached after `k` steps from `pos` in direction `dir`.
pub open spec fn step_col(pos: int, dir: int, k: int) -> int {
    col_of(pos) + k * dir_dc(dir)
}

/// Whether the cell `k` steps from `pos` in direction `dir` is on the board.
pub open spec fn step_ok(pos: int, dir: int, k: int) -> bool {
    &&& 0 <= step_row(pos, dir, k) < 8
    &&& 0 <= step_col(pos, dir, k) < 8
}

/// Index of the cell `k` steps from `pos` in direction `dir`.
pub open spec fn step_idx(pos: int, dir: int, k: int) -> int {
    step_row(pos, dir, k) * 8 + step_col(pos, dir, k)
}

/// The direction that walks a single step back where `dir` went.
pub open spec fn opposite_dir(dir: int) -> int {
    if dir == 0 {
        1
    } else if dir == 1 {
        0
    } else if dir == 2 {
        3
    } else if dir == 3 {
        2
    } else if dir == 4 {
        7
    } else if dir == 5 {
        6
    } else if dir == 6 {
        5
    } else {
        4
    }
}

/// Recover row and column from a row-major index built out of them.
pub proof fn lemma_rowcol(r: int, c: int)
    requires
        0 <= r < 8,
        0 <= c < 8,
    ensures
        (r * 8 + c) / 8 == r,
        (r * 8 + c) % 8 == c,
{
    assert((r * 8 + c) / 8 == r && (r * 8 + c) % 8 == c) by (nonlinear_arith)
        requires
            0 <= r < 8,
            0 <= c < 8,
    ;
}

/// An on-board step is one of at most seven: some coordinate moves by one
/// each step, and the board is only eight wide.
pub proof fn lemma_step_bound(pos: int, dir: int, k: int)
    requires
        0 <= pos < 64,
        0 <= dir < 8,
        k >= 1,
        step_ok(pos, dir, k),
    ensures
        k <= 7,
{
}

/// An on-board step lands on a valid cell index, and never back on `pos`.
pub proof fn lemma_step_idx_range(pos: int, dir: int, k: int)
    requires
        0 <= pos < 64,
        0 <= dir < 8,
        k >= 1,
        step_ok(pos, dir, k),
    ensures
        0 <= step_idx(pos, dir, k) < 64,
        step_idx(pos, dir, k) != pos,
{
    lemma_rowcol(step_row(pos, dir, k), step_col(pos, dir, k));
}

/// Stepping one cell out and one cell back in the opposite direction
/// returns to the start.
pub proof fn lemma_step_symmetry(pos: int, dir: int, q: int)
    requires
        0 <= pos < 64,
        0 <= dir < 8,
        step_ok(pos, dir, 1),
        q == step_idx(pos, dir, 1),
    ensures
        0 <= q < 64,
        step_ok(q, opposite_dir(dir), 1),
        step_idx(q, opposite_dir(dir), 1) == pos,
{
    lemma_rowcol(step_row(pos, dir, 1), step_col(pos, dir, 1));
}

/// From a cell in column 0, every westward direction (west, north-west,
/// south-west) leaves the board at the very first step and never wraps
/// into column 7 of a neighbouring row; the whole scan stays off-board.
pub proof fn lemma_column0_no_west(pos: int, dir: int, k: int)
    requires
        0 <= pos < 64,
        col_of(pos) == 0,
        dir == 1 || dir == 4 || dir == 6,
        k >= 1,
    ensures
        !step_ok(pos, dir, k),
{
}

/// From a cell in column 7, every eastward direction (east, north-east,
/// south-east) leaves the board at the very first step and never wraps
/// into column 0 of a neighbouring row.
pub proof fn lemma_column7_no_east(pos: int, dir: int, k: int)
    requires
        0 <= pos < 64,
        col_of(pos) == 7,
        dir == 0 || dir == 5 || dir == 7,
        k >= 1,
    ensures
        !step_ok(pos, dir, k),
{
}

/// Position reached by walking `iter` cells from `pos` in direction `dir`,
/// or `None` when that walk leaves the board (including wrapping past the
/// left or right edge).  Directions `0..8` are east, west, south, north,
/// north-west, north-east, south-west and south-east; anything else has no
/// next cell.
pub fn get_new_pos(dir: u8, pos: u8, iter: u8, size: u8) -> (r: Option<u8>)
    requires
        pos < 64,
        size == 64,
    ensures
        match r {
            Some(p) => {
                &&& dir < 8
                &&& step_ok(pos as int, dir as int, iter as int)
                &&& p == step_idx(pos as int, dir as int, iter as int)
                &&& p < 64
            },
            None => !(dir < 8 && step_ok(pos as int, dir as int, iter as int)),
        },
{
    if dir >= 8 {
        return None;
    }
    let dr: i32 = if dir == 0 {
        0
    } else if dir == 1 {
        0
    } else if dir == 2 {
        1
    } else if dir == 3 {
        -1
    } else if dir == 4 {
        -1
    } else if dir == 5 {
        -1
    } else if dir == 6 {
        1
    } else {
        1
    };
    let dc: i32 = if dir == 0 {
        1
    } else if dir == 1 {
        -1
    } else if dir == 2 {
        0
    } else if dir == 3 {
        0
    } else if dir == 4 {
        -1
    } else if dir == 5 {
        1
    } else if dir == 6 {
        -1
    } else {
        1
    };
    assert(dr == dir_dr(dir as int) && dc == dir_dc(dir as int));
    let r0: i32 = (pos / 8) as i32 + (iter as i32) * dr;
    let c0: i32 = (pos % 8) as i32 + (iter as i32) * dc;
    if 0 <= r0 && r0 < 8 && 0 <= c0 && c0 < 8 {
        proof {
            lemma_rowcol(r0 as int, c0 as int);
        }
        Some((r0 * 8 + c0) as u8)
    } else {
        None
    }
}

} // verus!
