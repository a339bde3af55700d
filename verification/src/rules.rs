//! The mathematical model of the game: what a legal move is, which cells a
//! move flips, what the board looks like afterwards, and how the piece
//! counts behave.  Cell values are 0 (empty), 1 (the human player) and
//! 2 (the computer).

use vstd::prelude::*;
use crate::geometry::{step_ok, step_idx, lemma_step_idx_range};

verus! {

/// A well-formed cell grid: 64 cells, each empty or owned by one side.
pub open spec fn valid_cells(cells: Seq<u8>) -> bool {
    &&& cells.len() == 64
    &&& forall|i: int| 0 <= i < 64 ==> #[trigger] cells[i] <= 2
}

/// A piece value: one of the two sides.
pub open spec fn is_piece(v: u8) -> bool {
    v == 1 || v == 2
}

/// The other side's piece value.
pub open spec fn opponent(v: u8) -> u8 {
    (3 - v) as u8
}

/// Steps `1..=n` from `pos` in direction `dir` all lie on the board and
/// all hold the opponent of `val`.
pub open spec fn opp_run(cells: Seq<u8>, pos: int, val: u8, dir: int, n: int) -> bool {
    forall|k: int|
        1 <= k <= n ==> #[trigger] step_ok(pos, dir, k) && cells[step_idx(pos, dir, k)]
            == opponent(val)
}

/// Placing `val` at `pos` captures exactly `n` opponent pieces along
/// direction `dir`: a non-empty contiguous opponent run of length `n`
/// terminated by a piece of the mover's own colour, with no gap.
pub open spec fn captures_with(cells: Seq<u8>, pos: int, val: u8, dir: int, n: int) -> bool {
    &&& n >= 1
    &&& opp_run(cells, pos, val, dir, n)
    &&& step_ok(pos, dir, n + 1)
    &&& cells[step_idx(pos, dir, n + 1)] == val
}

/// Placing `val` at `pos` captures along direction `dir`.
pub open spec fn captures(cells: Seq<u8>, pos: int, val: u8, dir: int) -> bool {
    exists|n: int| captures_with(cells, pos, val, dir, n)
}

/// A legal move: an empty cell where placing the mover's piece captures
/// in at least one direction.
pub open spec fn legal_move(cells: Seq<u8>, pos: int, val: u8) -> bool {
    &&& 0 <= pos < 64
    &&& cells[pos] == 0
    &&& exists|dir: int| 0 <= dir < 8 && #[trigger] captures(cells, pos, val, dir)
}

/// Cell `q` lies on the captured run of direction `dir` for a move of
/// `val` at `pos`.
pub open spec fn flipped_in_dir(cells: Seq<u8>, pos: int, val: u8, dir: int, q: int) -> bool {
    exists|n: int, k: int|
        #![trigger captures_with(cells, pos, val, dir, n), step_idx(pos, dir, k)]
        captures_with(cells, pos, val, dir, n) && 1 <= k <= n && q == step_idx(pos, dir, k)
}

/// Cell `q` is flipped by a move of `val` at `pos`: it lies on a
/// contiguous opponent run between the placed piece and a terminating
/// same-colour piece, in some direction.  Cells beyond an empty gap are
/// never flipped, because such a run has no gap by construction.
pub open spec fn flipped(cells: Seq<u8>, pos: int, val: u8, q: int) -> bool {
    exists|dir: int| 0 <= dir < 8 && #[trigger] flipped_in_dir(cells, pos, val, dir, q)
}

/// The grid after `val` moves at `pos`: the placed cell and every flipped
/// cell now hold `val`; everything else is untouched.
pub open spec fn board_after(cells: Seq<u8>, pos: int, val: u8) -> Seq<u8> {
    Seq::new(
        64,
        |q: int|
            if q == pos {
                val
            } else if flipped(cells, pos, val, q) {
                val
            } else {
                cells[q]
            },
    )
}

/// Some on-board neighbour of `pos` is occupied.
pub open spec fn occupied_neighbor(cells: Seq<u8>, pos: int) -> bool {
    exists|dir: int|
        0 <= dir < 8 && #[trigger] step_ok(pos, dir, 1) && cells[step_idx(pos, dir, 1)] != 0
}

/// A perimeter cell: empty, and adjacent in some direction to an occupied
/// cell.  These are the only cells whose legality can ever change, so the
/// engine rescans just them after each move.
pub open spec fn perimeter_cell(cells: Seq<u8>, pos: int) -> bool {
    &&& 0 <= pos < 64
    &&& cells[pos] == 0
    &&& occupied_neighbor(cells, pos)
}

/// How many cells hold the value `v`.
pub open spec fn count_val(cells: Seq<u8>, v: u8) -> int
    decreases cells.len(),
{
    if cells.len() == 0 {
        0
    } else {
        count_val(cells.drop_last(), v) + if cells.last() == v {
            1int
        } else {
            0int
        }
    }
}

/// There is some legal move for `val` on the grid.
pub open spec fn has_move(cells: Seq<u8>, val: u8) -> bool {
    exists|p: int| #[trigger] legal_move(cells, p, val)
}

/// In one direction the captured run length is unique.
pub proof fn lemma_capture_unique(cells: Seq<u8>, pos: int, val: u8, dir: int, n1: int, n2: int)
    requires
        is_piece(val),
        captures_with(cells, pos, val, dir, n1),
        captures_with(cells, pos, val, dir, n2),
    ensures
        n1 == n2,
{
    if n1 < n2 {
        assert(step_ok(pos, dir, n1 + 1) && cells[step_idx(pos, dir, n1 + 1)] == opponent(val));
    } else if n2 < n1 {
        assert(step_ok(pos, dir, n2 + 1) && cells[step_idx(pos, dir, n2 + 1)] == opponent(val));
    }
}

/// A flipped cell held the opponent before the move, so flipping never
/// touches an empty cell and never changes which cells are occupied.
pub proof fn lemma_flipped_was_opponent(cells: Seq<u8>, pos: int, val: u8, q: int)
    requires
        is_piece(val),
        0 <= pos < 64,
        flipped(cells, pos, val, q),
    ensures
        0 <= q < 64,
        q != pos,
        cells[q] == opponent(val),
{
    let dir = choose|dir: int| 0 <= dir < 8 && #[trigger] flipped_in_dir(cells, pos, val, dir, q);
    let (n, k): (int, int) = choose|n: int, k: int|
        #![trigger captures_with(cells, pos, val, dir, n), step_idx(pos, dir, k)]
        captures_with(cells, pos, val, dir, n) && 1 <= k <= n && q == step_idx(pos, dir, k);
    assert(step_ok(pos, dir, k) && cells[step_idx(pos, dir, k)] == opponent(val));
    lemma_step_idx_range(pos, dir, k);
}

/// Counting a prefix one element longer adds one exactly when that
/// element holds the counted value.
pub proof fn lemma_count_take_step(cells: Seq<u8>, v: u8, i: int)
    requires
        0 <= i < cells.len(),
    ensures
        count_val(cells.take(i + 1), v) == count_val(cells.take(i), v) + if cells[i] == v {
            1int
        } else {
            0int
        },
{
    assert(cells.take(i + 1).drop_last() =~= cells.take(i));
    assert(cells.take(i + 1).last() == cells[i]);
}

/// A count is never negative and never exceeds the number of cells.
pub proof fn lemma_count_bounds(cells: Seq<u8>, v: u8)
    ensures
        0 <= count_val(cells, v) <= cells.len(),
    decreases cells.len(),
{
    if cells.len() > 0 {
        lemma_count_bounds(cells.drop_last(), v);
    }
}

/// Two grids that agree everywhere on where `v` sits have the same count
/// of `v`.
pub proof fn lemma_count_agree(a: Seq<u8>, b: Seq<u8>, v: u8)
    requires
        a.len() == b.len(),
        forall|q: int| 0 <= q < a.len() ==> ((#[trigger] a[q] == v) <==> (#[trigger] b[q] == v)),
    ensures
        count_val(a, v) == count_val(b, v),
    decreases a.len(),
{
    if a.len() > 0 {
        assert forall|q: int| 0 <= q < a.len() - 1 implies ((#[trigger] a.drop_last()[q] == v)
            <==> (#[trigger] b.drop_last()[q] == v)) by {
            assert(a[q] == v <==> b[q] == v);
        }
        lemma_count_agree(a.drop_last(), b.drop_last(), v);
        assert(a.last() == v <==> b.last() == v);
    }
}

/// Two grids that agree on where `v` sits except at one position differ in
/// the count of `v` only by that position's contribution.
pub proof fn lemma_count_agree_except(a: Seq<u8>, b: Seq<u8>, v: u8, pos: int)
    requires
        a.len() == b.len(),
        0 <= pos < a.len(),
        forall|q: int|
            0 <= q < a.len() && q != pos ==> ((#[trigger] a[q] == v) <==> (#[trigger] b[q] == v)),
    ensures
        count_val(b, v) == count_val(a, v) + (if b[pos] == v {
            1int
        } else {
            0int
        }) - (if a[pos] == v {
            1int
        } else {
            0int
        }),
    decreases a.len(),
{
    if pos == a.len() - 1 {
        assert forall|q: int| 0 <= q < a.len() - 1 implies ((#[trigger] a.drop_last()[q] == v)
            <==> (#[trigger] b.drop_last()[q] == v)) by {
            assert(a[q] == v <==> b[q] == v);
        }
        lemma_count_agree(a.drop_last(), b.drop_last(), v);
        assert(a.last() == a[pos] && b.last() == b[pos]);
    } else {
        assert forall|q: int| 0 <= q < a.len() - 1 && q != pos implies ((#[trigger] a.drop_last()[q]
            == v) <==> (#[trigger] b.drop_last()[q] == v)) by {
            assert(a[q] == v <==> b[q] == v);
        }
        lemma_count_agree_except(a.drop_last(), b.drop_last(), v, pos);
        assert(a.last() == v <==> b.last() == v);
    }
}

/// The empty, player and computer counts partition a well-formed grid.
pub proof fn lemma_count_partition(cells: Seq<u8>)
    requires
        forall|i: int| 0 <= i < cells.len() ==> #[trigger] cells[i] <= 2,
    ensures
        count_val(cells, 0) + count_val(cells, 1) + count_val(cells, 2) == cells.len(),
    decreases cells.len(),
{
    if cells.len() > 0 {
        assert forall|i: int| 0 <= i < cells.len() - 1 implies #[trigger] cells.drop_last()[i]
            <= 2 by {
            assert(cells[i] <= 2);
        }
        lemma_count_partition(cells.drop_last());
        assert(cells.last() <= 2);
    }
}

/// LAW (score conservation): a legal move raises the total number of
/// pieces on the board by exactly one — the placed piece — because flips
/// change ownership, never occupancy.  Equivalently, the number of empty
/// cells drops by exactly one.
pub proof fn lemma_score_conservation(cells: Seq<u8>, pos: int, val: u8)
    requires
        valid_cells(cells),
        is_piece(val),
        legal_move(cells, pos, val),
    ensures
        count_val(board_after(cells, pos, val), 1) + count_val(board_after(cells, pos, val), 2)
            == count_val(cells, 1) + count_val(cells, 2) + 1,
        count_val(board_after(cells, pos, val), 0) == count_val(cells, 0) - 1,
{
    let after = board_after(cells, pos, val);
    lemma_board_after_valid(cells, pos, val);
    lemma_board_after_occupancy(cells, pos, val);
    assert forall|q: int| 0 <= q < 64 && q != pos implies ((#[trigger] cells[q] == 0)
        <==> (#[trigger] after[q] == 0)) by {
        assert(after[q] == 0 <==> cells[q] == 0);
    }
    lemma_count_agree_except(cells, after, 0, pos);
    lemma_count_partition(cells);
    lemma_count_partition(after);
}

/// A legal move always sits on the perimeter: the first cell of its
/// captured run is an occupied neighbour.
pub proof fn lemma_legal_is_perimeter(cells: Seq<u8>, pos: int, val: u8)
    requires
        is_piece(val),
        legal_move(cells, pos, val),
    ensures
        perimeter_cell(cells, pos),
{
    let dir = choose|dir: int| 0 <= dir < 8 && #[trigger] captures(cells, pos, val, dir);
    let n = choose|n: int| captures_with(cells, pos, val, dir, n);
    assert(step_ok(pos, dir, 1) && cells[step_idx(pos, dir, 1)] == opponent(val));
}

/// A perimeter cell other than the move itself is still a perimeter cell
/// after the move: it stays empty and its occupied neighbour stays
/// occupied.
pub proof fn lemma_perimeter_monotone(cells: Seq<u8>, pos: int, val: u8, q: int)
    requires
        valid_cells(cells),
        is_piece(val),
        0 <= pos < 64,
        cells[pos] == 0,
        q != pos,
        perimeter_cell(cells, q),
    ensures
        perimeter_cell(board_after(cells, pos, val), q),
{
    let after = board_after(cells, pos, val);
    if flipped(cells, pos, val, q) {
        lemma_flipped_was_opponent(cells, pos, val, q);
    }
    assert(after[q] == 0);
    let dir = choose|dir: int|
        0 <= dir < 8 && #[trigger] step_ok(q, dir, 1) && cells[step_idx(q, dir, 1)] != 0;
    lemma_step_idx_range(q, dir, 1);
    lemma_board_after_occupancy(cells, pos, val);
    assert(step_ok(q, dir, 1) && after[step_idx(q, dir, 1)] != 0);
}

/// A cell off the move's new perimeter (and other than the move itself)
/// is a legal move for neither side, neither before nor after the move.
pub proof fn lemma_legality_needs_perimeter(cells: Seq<u8>, pos: int, val: u8, q: int, w: u8)
    requires
        valid_cells(cells),
        is_piece(val),
        is_piece(w),
        legal_move(cells, pos, val),
        q != pos,
        !perimeter_cell(board_after(cells, pos, val), q),
    ensures
        !legal_move(board_after(cells, pos, val), q, w),
        !legal_move(cells, q, w),
{
    let after = board_after(cells, pos, val);
    if legal_move(after, q, w) {
        lemma_legal_is_perimeter(after, q, w);
    }
    if legal_move(cells, q, w) {
        lemma_legal_is_perimeter(cells, q, w);
        lemma_perimeter_monotone(cells, pos, val, q);
    }
}

/// The grid after a legal move is still a well-formed grid.
pub proof fn lemma_board_after_valid(cells: Seq<u8>, pos: int, val: u8)
    requires
        valid_cells(cells),
        is_piece(val),
        0 <= pos < 64,
    ensures
        valid_cells(board_after(cells, pos, val)),
{
}

/// Pointwise occupancy after a move: the placed cell becomes occupied and
/// every other cell keeps its occupancy, flips only changing ownership.
pub proof fn lemma_board_after_occupancy(cells: Seq<u8>, pos: int, val: u8)
    requires
        valid_cells(cells),
        is_piece(val),
        0 <= pos < 64,
        cells[pos] == 0,
    ensures
        board_after(cells, pos, val)[pos] == val,
        forall|q: int|
            0 <= q < 64 && q != pos ==> ((#[trigger] board_after(cells, pos, val)[q] == 0) <==> cells[q]
                == 0),
{
    let after = board_after(cells, pos, val);
    assert forall|q: int| 0 <= q < 64 && q != pos implies ((#[trigger] after[q] == 0) <==> cells[q]
        == 0) by {
        if flipped(cells, pos, val, q) {
            lemma_flipped_was_opponent(cells, pos, val, q);
        }
    }
}

} // verus!
