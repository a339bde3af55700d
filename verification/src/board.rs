//! The board engine: the game state, legal-move discovery, move
//! application with piece flipping, perimeter tracking, score computation
//! and terminal-state detection.
//!
//! The struct keeps, beside the 64-cell grid, three `IndexSet`s — the
//! perimeter (empty cells next to an occupied one) and the two sides'
//! legal-move sets — and a turn flag.  The invariant `wf` ties each set
//! exactly to the grid: a cell is in a side's set if and only if it is a
//! legal move for that side, and in the perimeter set if and only if it
//! is a perimeter cell.

use vstd::prelude::*;
use vstd::pervasive::unreached;
use indexmap::IndexSet;
use crate::geometry::{
    step_ok, step_idx, get_new_pos, lemma_step_bound, lemma_step_idx_range, lemma_step_symmetry,
    opposite_dir,
};
use crate::rules::{
    valid_cells, is_piece, opponent, opp_run, captures_with, captures, legal_move, flipped_in_dir,
    flipped, board_after, occupied_neighbor, perimeter_cell, count_val, has_move,
    lemma_capture_unique, lemma_flipped_was_opponent, lemma_board_after_valid,
    lemma_board_after_occupancy, lemma_count_take_step, lemma_count_bounds,
    lemma_legal_is_perimeter, lemma_perimeter_monotone, lemma_legality_needs_perimeter,
};
use crate::iset::{
    iset_seq, iset_new, iset_len, iset_contains, iset_insert, iset_remove, iset_clone, iset_to_vec,
};

verus! {

broadcast use vstd::seq_lib::lemma_seq_contains_after_push;

/// Error returned when a move is attempted at a cell that is not a legal
/// move for the placing side.  The board is left untouched.
#[derive(Clone, Copy, PartialEq, Eq, Debug, Structural)]
pub struct IllegalMove;

/// Outcome of terminal-state detection.  The game is over exactly when
/// either side has no legal move; the winner is whoever holds strictly
/// more pieces.
#[derive(Clone, Copy, PartialEq, Eq, Debug, Structural)]
pub enum GameState {
    InProgress,
    PlayerWin,
    CpuWin,
    Draw,
}

/// The terminal state a grid is in.
pub open spec fn game_state_of(cells: Seq<u8>) -> GameState {
    if has_move(cells, 1) && has_move(cells, 2) {
        GameState::InProgress
    } else if count_val(cells, 1) > count_val(cells, 2) {
        GameState::PlayerWin
    } else if count_val(cells, 2) > count_val(cells, 1) {
        GameState::CpuWin
    } else {
        GameState::Draw
    }
}

/// The canonical 8x8 starting grid: the central 2x2 block holds the two
/// sides diagonally.
pub open spec fn initial_cells() -> Seq<u8> {
    Seq::new(
        64,
        |i: int|
            if i == 28 || i == 35 {
                1u8
            } else if i == 27 || i == 36 {
                2u8
            } else {
                0u8
            },
    )
}

/// The game board.  Cells are `0` (empty), `1` (the human player) and
/// `2` (the computer), stored row-major, 8 cells to a row.
pub struct Board {
    pub width: u8,
    pub height: u8,
    pub board_size: u8,
    pub board: Vec<u8>,
    pub perimeter: IndexSet<u8>,
    pub player_available_actions: IndexSet<u8>,
    pub cpu_available_actions: IndexSet<u8>,
    pub player_turn: bool,
}

impl Board {
    /// The engine invariant: a well-formed 8x8 grid whose perimeter and
    /// legal-move sets match it exactly.
    pub open spec fn wf(self) -> bool {
        &&& self.width == 8
        &&& self.height == 8
        &&& self.board_size == 64
        &&& valid_cells(self.board@)
        &&& forall|p: u8|
            #[trigger] iset_seq(self.perimeter).contains(p) <==> perimeter_cell(
                self.board@,
                p as int,
            )
        &&& forall|p: u8|
            #[trigger] iset_seq(self.player_available_actions).contains(p) <==> legal_move(
                self.board@,
                p as int,
                1,
            )
        &&& forall|p: u8|
            #[trigger] iset_seq(self.cpu_available_actions).contains(p) <==> legal_move(
                self.board@,
                p as int,
                2,
            )
    }

    /// The legal-move set of the side `val`, as a sequence.
    pub open spec fn actions_of(self, val: u8) -> Seq<u8> {
        if val == 1 {
            iset_seq(self.player_available_actions)
        } else {
            iset_seq(self.cpu_available_actions)
        }
    }

    /// The piece value of the side whose turn it is: the player moves
    /// first and the sides alternate.
    pub open spec fn mover(self) -> u8 {
        if self.player_turn {
            1u8
        } else {
            2u8
        }
    }
}

/// Whether some neighbour of `pos` is occupied, by probing one step in
/// all eight directions.
fn has_occupied_neighbor(cells: &Vec<u8>, pos: u8) -> (r: bool)
    requires
        valid_cells(cells@),
        pos < 64,
    ensures
        r == occupied_neighbor(cells@, pos as int),
{
    let mut dir: u8 = 0;
    while dir < 8
        invariant
            valid_cells(cells@),
            pos < 64,
            dir <= 8,
            forall|d: int|
                0 <= d < dir ==> !(#[trigger] step_ok(pos as int, d, 1) && cells@[step_idx(
                    pos as int,
                    d,
                    1,
                )] != 0),
        decreases 8 - dir,
    {
        match get_new_pos(dir, pos, 1, 64) {
            Some(np) => {
                if cells[np as usize] != 0 {
                    return true;
                }
            },
            None => {},
        }
        dir = dir + 1;
    }
    false
}

/// Length of the captured run for a move of `val` at `pos` along
/// direction `dir`, or `None` when that direction captures nothing: the
/// outward scan collects a contiguous opponent run and only a same-colour
/// terminator before any gap or edge makes it a capture.
fn capture_run_len(cells: &Vec<u8>, pos: u8, val: u8, dir: u8) -> (r: Option<u8>)
    requires
        valid_cells(cells@),
        pos < 64,
        is_piece(val),
        dir < 8,
    ensures
        match r {
            Some(n) => captures_with(cells@, pos as int, val, dir as int, n as int),
            None => !captures(cells@, pos as int, val, dir as int),
        },
{
    let ghost c = cells@;
    let ghost posi = pos as int;
    let ghost diri = dir as int;
    let mut k: u8 = 1;
    loop
        invariant
            valid_cells(c),
            c == cells@,
            posi == pos as int,
            diri == dir as int,
            pos < 64,
            is_piece(val),
            dir < 8,
            1 <= k <= 8,
            opp_run(c, posi, val, diri, k as int - 1),
        decreases 8 - k,
    {
        match get_new_pos(dir, pos, k, 64) {
            None => {
                proof {
                    assert forall|n: int| !captures_with(c, posi, val, diri, n) by {
                        if captures_with(c, posi, val, diri, n) {
                            if n <= k - 2 {
                                assert(step_ok(posi, diri, n + 1) && c[step_idx(posi, diri, n + 1)]
                                    == opponent(val));
                            } else if n == k - 1 {
                                assert(step_ok(posi, diri, n + 1));
                            } else {
                                assert(step_ok(posi, diri, k as int));
                            }
                        }
                    }
                }
                return None;
            },
            Some(np) => {
                let t = cells[np as usize];
                if t != val && t != 0 {
                    proof {
                        assert(t == opponent(val));
                        assert forall|j: int| 1 <= j <= k as int implies #[trigger] step_ok(
                            posi,
                            diri,
                            j,
                        ) && c[step_idx(posi, diri, j)] == opponent(val) by {
                            if j <= k - 1 {
                                assert(step_ok(posi, diri, j) && c[step_idx(posi, diri, j)]
                                    == opponent(val));
                            }
                        }
                        lemma_step_bound(posi, diri, k as int);
                    }
                    k = k + 1;
                } else if t == val {
                    if k >= 2 {
                        proof {
                            assert(captures_with(c, posi, val, diri, k as int - 1));
                        }
                        return Some(k - 1);
                    } else {
                        proof {
                            assert forall|n: int| !captures_with(c, posi, val, diri, n) by {
                                if captures_with(c, posi, val, diri, n) {
                                    assert(step_ok(posi, diri, 1) && c[step_idx(posi, diri, 1)]
                                        == opponent(val));
                                }
                            }
                        }
                        return None;
                    }
                } else {
                    proof {
                        assert forall|n: int| !captures_with(c, posi, val, diri, n) by {
                            if captures_with(c, posi, val, diri, n) {
                                if n <= k - 2 {
                                    assert(step_ok(posi, diri, n + 1) && c[step_idx(
                                        posi,
                                        diri,
                                        n + 1,
                                    )] == opponent(val));
                                } else if n == k - 1 {
                                    assert(c[step_idx(posi, diri, n + 1)] == val);
                                } else {
                                    assert(step_ok(posi, diri, k as int) && c[step_idx(
                                        posi,
                                        diri,
                                        k as int,
                                    )] == opponent(val));
                                }
                            }
                        }
                    }
                    return None;
                }
            },
        }
    }
}

/// Whether placing `val` at `pos` is legal right now: the cell is empty
/// and some direction captures.
fn is_legal_action(cells: &Vec<u8>, pos: u8, val: u8) -> (r: bool)
    requires
        valid_cells(cells@),
        pos < 64,
        is_piece(val),
    ensures
        r == legal_move(cells@, pos as int, val),
{
    if cells[pos as usize] != 0 {
        return false;
    }
    let mut dir: u8 = 0;
    while dir < 8
        invariant
            valid_cells(cells@),
            pos < 64,
            is_piece(val),
            dir <= 8,
            cells@[pos as int] == 0,
            forall|d: int| 0 <= d < dir ==> !(#[trigger] captures(cells@, pos as int, val, d)),
        decreases 8 - dir,
    {
        match capture_run_len(cells, pos, val, dir) {
            Some(n) => {
                proof {
                    assert(captures_with(cells@, pos as int, val, dir as int, n as int));
                    assert(captures(cells@, pos as int, val, dir as int));
                }
                return true;
            },
            None => {},
        }
        dir = dir + 1;
    }
    false
}

impl Board {
    /// Build a board around an arbitrary well-formed grid by running the
    /// legality and perimeter checks over every cell.  Useful for setting
    /// up positions; `new` derives the starting board through it.
    pub fn from_cells(cells: Vec<u8>, player_turn: bool) -> (b: Board)
        requires
            valid_cells(cells@),
        ensures
            b.wf(),
            b.board@ == cells@,
            b.player_turn == player_turn,
    {
        let mut perimeter = iset_new();
        let mut player_actions = iset_new();
        let mut cpu_actions = iset_new();
        let mut i: u8 = 0;
        while i < 64
            invariant
                valid_cells(cells@),
                i <= 64,
                forall|p: u8|
                    #[trigger] iset_seq(perimeter).contains(p) <==> (p < i && perimeter_cell(
                        cells@,
                        p as int,
                    )),
                forall|p: u8|
                    #[trigger] iset_seq(player_actions).contains(p) <==> (p < i && legal_move(
                        cells@,
                        p as int,
                        1,
                    )),
                forall|p: u8|
                    #[trigger] iset_seq(cpu_actions).contains(p) <==> (p < i && legal_move(
                        cells@,
                        p as int,
                        2,
                    )),
            decreases 64 - i,
        {
            if cells[i as usize] == 0 && has_occupied_neighbor(&cells, i) {
                iset_insert(&mut perimeter, i);
            }
            if is_legal_action(&cells, i, 1) {
                iset_insert(&mut player_actions, i);
            }
            if is_legal_action(&cells, i, 2) {
                iset_insert(&mut cpu_actions, i);
            }
            i = i + 1;
        }
        Board {
            width: 8,
            height: 8,
            board_size: 64,
            board: cells,
            perimeter,
            player_available_actions: player_actions,
            cpu_available_actions: cpu_actions,
            player_turn,
        }
    }

    /// The starting board: two pieces each in the central 2x2 block,
    /// diagonally placed, the player to move, and the perimeter and both
    /// legal-move sets derived from the grid.
    pub fn new(w: u8, h: u8) -> (b: Board)
        requires
            w == 8,
            h == 8,
        ensures
            b.wf(),
            b.board@ == initial_cells(),
            b.player_turn == true,
    {
        let mut cells: Vec<u8> = Vec::new();
        let mut i: u8 = 0;
        while i < 64
            invariant
                i <= 64,
                cells@.len() == i as int,
                forall|j: int| 0 <= j < i as int ==> cells@[j] == 0u8,
            decreases 64 - i,
        {
            cells.push(0);
            i = i + 1;
        }
        cells.set(28, 1);
        cells.set(35, 1);
        cells.set(27, 2);
        cells.set(36, 2);
        proof {
            assert(cells@ =~= initial_cells());
        }
        Board::from_cells(cells, true)
    }

    /// A deep copy: an independent board with the same grid, the same
    /// perimeter and legal-move sets (in the same order) and the same
    /// turn.  Mutating the copy cannot touch the original.
    pub fn clone(&self) -> (b: Board)
        ensures
            b.width == self.width,
            b.height == self.height,
            b.board_size == self.board_size,
            b.board@ == self.board@,
            iset_seq(b.perimeter) == iset_seq(self.perimeter),
            iset_seq(b.player_available_actions) == iset_seq(self.player_available_actions),
            iset_seq(b.cpu_available_actions) == iset_seq(self.cpu_available_actions),
            b.player_turn == self.player_turn,
            self.wf() ==> b.wf(),
    {
        let mut board_copy: Vec<u8> = Vec::new();
        let mut i: usize = 0;
        while i < self.board.len()
            invariant
                i <= self.board@.len(),
                board_copy@ == self.board@.take(i as int),
            decreases self.board@.len() - i,
        {
            board_copy.push(self.board[i]);
            proof {
                assert(board_copy@ =~= self.board@.take(i + 1));
            }
            i = i + 1;
        }
        proof {
            assert(board_copy@ =~= self.board@);
        }
        Board {
            width: self.width,
            height: self.height,
            board_size: self.board_size,
            board: board_copy,
            perimeter: iset_clone(&self.perimeter),
            player_available_actions: iset_clone(&self.player_available_actions),
            cpu_available_actions: iset_clone(&self.cpu_available_actions),
            player_turn: self.player_turn,
        }
    }

    /// A copy of the legal-move set of the side whose turn it is.
    pub fn get_available_actions(&self) -> (r: IndexSet<u8>)
        ensures
            iset_seq(r) == self.actions_of(self.mover()),
    {
        if self.player_turn {
            self.get_player_actions()
        } else {
            self.get_cpu_actions()
        }
    }

    /// A copy of the player's legal-move set.
    pub fn get_player_actions(&self) -> (r: IndexSet<u8>)
        ensures
            iset_seq(r) == iset_seq(self.player_available_actions),
    {
        iset_clone(&self.player_available_actions)
    }

    /// A copy of the computer's legal-move set.
    pub fn get_cpu_actions(&self) -> (r: IndexSet<u8>)
        ensures
            iset_seq(r) == iset_seq(self.cpu_available_actions),
    {
        iset_clone(&self.cpu_available_actions)
    }

    /// Whether it is the player's turn to move.
    pub fn is_player_turn(&self) -> (r: bool)
        ensures
            r == self.player_turn,
    {
        self.player_turn
    }

    /// A copy of the perimeter set: the empty cells adjacent to an
    /// occupied cell.
    pub fn get_perimeter(&self) -> (r: IndexSet<u8>)
        ensures
            iset_seq(r) == iset_seq(self.perimeter),
    {
        iset_clone(&self.perimeter)
    }

    /// The score: how many cells each side owns, player first.
    pub fn get_score(&self) -> (r: (u8, u8))
        requires
            self.wf(),
        ensures
            r.0 == count_val(self.board@, 1),
            r.1 == count_val(self.board@, 2),
    {
        let mut count_player: u8 = 0;
        let mut count_cpu: u8 = 0;
        let mut i: usize = 0;
        while i < 64
            invariant
                valid_cells(self.board@),
                i <= 64,
                count_player == count_val(self.board@.take(i as int), 1),
                count_cpu == count_val(self.board@.take(i as int), 2),
                count_player <= i,
                count_cpu <= i,
            decreases 64 - i,
        {
            let t = self.board[i];
            proof {
                lemma_count_take_step(self.board@, 1, i as int);
                lemma_count_take_step(self.board@, 2, i as int);
                lemma_count_bounds(self.board@.take(i + 1), 1);
                lemma_count_bounds(self.board@.take(i + 1), 2);
            }
            if t == 1 {
                count_player = count_player + 1;
            } else if t == 2 {
                count_cpu = count_cpu + 1;
            }
            i = i + 1;
        }
        proof {
            assert(self.board@.take(64) =~= self.board@);
        }
        (count_player, count_cpu)
    }

    /// Terminal-state detection.  The game is over exactly when either
    /// side's legal-move set is empty — this engine deliberately ends the
    /// game as soon as one side cannot move, rather than forcing a pass —
    /// and the winner is then decided by strict score comparison, equal
    /// scores being a draw.
    pub fn check_game_state(&self) -> (r: GameState)
        requires
            self.wf(),
        ensures
            r == game_state_of(self.board@),
    {
        let pn = iset_len(&self.player_available_actions);
        let cn = iset_len(&self.cpu_available_actions);
        proof {
            self.lemma_actions_empty_iff_no_move(1);
            self.lemma_actions_empty_iff_no_move(2);
        }
        if cn == 0 || pn == 0 {
            let (player_score, cpu_score) = self.get_score();
            if player_score > cpu_score {
                GameState::PlayerWin
            } else if cpu_score > player_score {
                GameState::CpuWin
            } else {
                GameState::Draw
            }
        } else {
            GameState::InProgress
        }
    }

    /// Under the invariant, a side's legal-move set is empty exactly when
    /// that side has no legal move on the grid.
    pub proof fn lemma_actions_empty_iff_no_move(self, val: u8)
        requires
            self.wf(),
            is_piece(val),
        ensures
            self.actions_of(val).len() == 0 <==> !has_move(self.board@, val),
    {
        let s = self.actions_of(val);
        if s.len() > 0 {
            assert(s.contains(s[0]));
            assert(legal_move(self.board@, s[0] as int, val));
        }
        if has_move(self.board@, val) {
            let p = choose|p: int| #[trigger] legal_move(self.board@, p, val);
            assert(legal_move(self.board@, (p as u8) as int, val));
            assert(s.contains(p as u8));
        }
    }
}

/// All cells flipped by a move of `val` at `pos`: the captured run of
/// every direction, read off the current grid before any piece moves.
fn collect_flips(cells: &Vec<u8>, pos: u8, val: u8) -> (r: Vec<u8>)
    requires
        valid_cells(cells@),
        pos < 64,
        is_piece(val),
    ensures
        forall|q: u8| #[trigger] r@.contains(q) <==> flipped(cells@, pos as int, val, q as int),
        forall|j: int| 0 <= j < r@.len() ==> r@[j] < 64,
{
    let ghost c = cells@;
    let ghost posi = pos as int;
    let mut r: Vec<u8> = Vec::new();
    let mut dir: u8 = 0;
    while dir < 8
        invariant
            valid_cells(c),
            c == cells@,
            posi == pos as int,
            pos < 64,
            is_piece(val),
            dir <= 8,
            forall|q: u8|
                #[trigger] r@.contains(q) <==> exists|d: int|
                    0 <= d < dir as int && #[trigger] flipped_in_dir(c, posi, val, d, q as int),
            forall|j: int| 0 <= j < r@.len() ==> r@[j] < 64,
        decreases 8 - dir,
    {
        let ghost diri = dir as int;
        match capture_run_len(cells, pos, val, dir) {
            Some(n) => {
                let mut k: u8 = 1;
                while k <= n
                    invariant
                        valid_cells(c),
                        c == cells@,
                        posi == pos as int,
                        diri == dir as int,
                        pos < 64,
                        is_piece(val),
                        dir < 8,
                        captures_with(c, posi, val, diri, n as int),
                        1 <= k <= n + 1,
                        n <= 7,
                        forall|q: u8|
                            #[trigger] r@.contains(q) <==> ((exists|d: int|
                                0 <= d < diri && #[trigger] flipped_in_dir(c, posi, val, d, q as int))
                                || (exists|k2: int|
                                1 <= k2 < k as int && q as int == #[trigger] step_idx(
                                    posi,
                                    diri,
                                    k2,
                                ))),
                        forall|j: int| 0 <= j < r@.len() ==> r@[j] < 64,
                    decreases n + 1 - k,
                {
                    proof {
                        assert(step_ok(posi, diri, k as int));
                    }
                    let np = match get_new_pos(dir, pos, k, 64) {
                        Some(np) => np,
                        None => unreached(),
                    };
                    r.push(np);
                    proof {
                        let ghost r_old = r@.drop_last();
                        assert(r@ == r_old.push(np));
                        assert forall|q: u8| #[trigger]
                            r@.contains(q) <==> ((exists|d: int|
                                0 <= d < diri && #[trigger] flipped_in_dir(
                                    c,
                                    posi,
                                    val,
                                    d,
                                    q as int,
                                )) || (exists|k2: int|
                                1 <= k2 < k as int + 1 && q as int == #[trigger] step_idx(
                                    posi,
                                    diri,
                                    k2,
                                ))) by {
                            if r@.contains(q) {
                                if !r_old.contains(q) {
                                    assert(q == np);
                                    assert(q as int == step_idx(posi, diri, k as int));
                                }
                            } else {
                                if exists|k2: int|
                                    1 <= k2 < k as int + 1 && q as int == #[trigger] step_idx(
                                        posi,
                                        diri,
                                        k2,
                                    ) {
                                    let k2 = choose|k2: int|
                                        1 <= k2 < k as int + 1 && q as int == #[trigger] step_idx(
                                            posi,
                                            diri,
                                            k2,
                                        );
                                    if k2 == k as int {
                                        assert(q as int == np as int);
                                        assert(r@.contains(np));
                                    }
                                }
                            }
                        }
                    }
                    k = k + 1;
                }
                proof {
                    assert forall|q: u8| #[trigger]
                        r@.contains(q) <==> exists|d: int|
                            0 <= d < dir as int + 1 && #[trigger] flipped_in_dir(
                                c,
                                posi,
                                val,
                                d,
                                q as int,
                            ) by {
                        if r@.contains(q) {
                            if exists|k2: int|
                                1 <= k2 < k as int && q as int == #[trigger] step_idx(
                                    posi,
                                    diri,
                                    k2,
                                ) {
                                let k2 = choose|k2: int|
                                    1 <= k2 < k as int && q as int == #[trigger] step_idx(
                                        posi,
                                        diri,
                                        k2,
                                    );
                                assert(captures_with(c, posi, val, diri, n as int) && 1 <= k2
                                    <= n as int && q as int == step_idx(posi, diri, k2));
                                assert(flipped_in_dir(c, posi, val, diri, q as int));
                            }
                        } else {
                            if exists|d: int|
                                0 <= d < dir as int + 1 && #[trigger] flipped_in_dir(
                                    c,
                                    posi,
                                    val,
                                    d,
                                    q as int,
                                ) {
                                let d = choose|d: int|
                                    0 <= d < dir as int + 1 && #[trigger] flipped_in_dir(
                                        c,
                                        posi,
                                        val,
                                        d,
                                        q as int,
                                    );
                                if d == diri {
                                    let (n2, k2): (int, int) = choose|n2: int, k2: int|
                                        #![trigger captures_with(c, posi, val, diri, n2), step_idx(posi, diri, k2)]
                                        captures_with(c, posi, val, diri, n2) && 1 <= k2 <= n2
                                            && q as int == step_idx(posi, diri, k2);
                                    lemma_capture_unique(c, posi, val, diri, n2, n as int);
                                    assert(1 <= k2 < k as int && q as int == step_idx(
                                        posi,
                                        diri,
                                        k2,
                                    ));
                                }
                            }
                        }
                    }
                }
            },
            None => {
                proof {
                    assert forall|q: u8| #[trigger]
                        r@.contains(q) <==> exists|d: int|
                            0 <= d < dir as int + 1 && #[trigger] flipped_in_dir(
                                c,
                                posi,
                                val,
                                d,
                                q as int,
                            ) by {
                        if !r@.contains(q) {
                            if exists|d: int|
                                0 <= d < dir as int + 1 && #[trigger] flipped_in_dir(
                                    c,
                                    posi,
                                    val,
                                    d,
                                    q as int,
                                ) {
                                let d = choose|d: int|
                                    0 <= d < dir as int + 1 && #[trigger] flipped_in_dir(
                                        c,
                                        posi,
                                        val,
                                        d,
                                        q as int,
                                    );
                                if d == diri {
                                    let (n2, k2): (int, int) = choose|n2: int, k2: int|
                                        #![trigger captures_with(c, posi, val, diri, n2), step_idx(posi, diri, k2)]
                                        captures_with(c, posi, val, diri, n2) && 1 <= k2 <= n2
                                            && q as int == step_idx(posi, diri, k2);
                                    assert(captures(c, posi, val, diri));
                                }
                            }
                        }
                    }
                }
            },
        }
        dir = dir + 1;
    }
    r
}

impl Board {
    /// Write `val` straight into the grid cell at `pos`.  This touches
    /// only the raw grid; the caller restores the set invariants.
    fn add(&mut self, pos: u8, val: u8)
        requires
            pos < 64,
            old(self).board@.len() == 64,
        ensures
            final(self).board@ == old(self).board@.update(pos as int, val),
            final(self).width == old(self).width,
            final(self).height == old(self).height,
            final(self).board_size == old(self).board_size,
            final(self).perimeter == old(self).perimeter,
            final(self).player_available_actions == old(self).player_available_actions,
            final(self).cpu_available_actions == old(self).cpu_available_actions,
            final(self).player_turn == old(self).player_turn,
    {
        self.board.set(pos as usize, val);
    }

    /// Re-evaluate whether `pos` is a legal move for the side `val` and
    /// insert it into or drop it from that side's set accordingly.
    /// Nothing else on the board changes.
    fn check_tile_actions(&mut self, pos: u8, val: u8)
        requires
            valid_cells(old(self).board@),
            pos < 64,
            is_piece(val),
        ensures
            final(self).board == old(self).board,
            final(self).width == old(self).width,
            final(self).height == old(self).height,
            final(self).board_size == old(self).board_size,
            final(self).perimeter == old(self).perimeter,
            final(self).player_turn == old(self).player_turn,
            val == 1 ==> final(self).cpu_available_actions == old(self).cpu_available_actions,
            val == 2 ==> final(self).player_available_actions == old(
                self,
            ).player_available_actions,
            val == 1 ==> forall|p: u8|
                #[trigger] iset_seq(final(self).player_available_actions).contains(p) <==> (if p
                    == pos {
                    legal_move(old(self).board@, pos as int, 1)
                } else {
                    iset_seq(old(self).player_available_actions).contains(p)
                }),
            val == 2 ==> forall|p: u8|
                #[trigger] iset_seq(final(self).cpu_available_actions).contains(p) <==> (if p
                    == pos {
                    legal_move(old(self).board@, pos as int, 2)
                } else {
                    iset_seq(old(self).cpu_available_actions).contains(p)
                }),
    {
        let leg = is_legal_action(&self.board, pos, val);
        if val == 1 {
            if leg {
                iset_insert(&mut self.player_available_actions, pos);
            } else {
                iset_remove(&mut self.player_available_actions, pos);
            }
        } else {
            if leg {
                iset_insert(&mut self.cpu_available_actions, pos);
            } else {
                iset_remove(&mut self.cpu_available_actions, pos);
            }
        }
    }
}

impl Board {
    /// Apply a move: place `val` at `pos` if that is currently a legal
    /// move for that side, flip every captured run in all eight
    /// directions at once, update the perimeter, re-derive both sides'
    /// legal-move sets over the perimeter, and hand the turn to the
    /// other side.  An illegal `pos` reports `IllegalMove` and leaves
    /// the board completely untouched.
    pub fn ins(&mut self, pos: u8, val: u8) -> (r: Result<(), IllegalMove>)
        requires
            old(self).wf(),
            is_piece(val),
        ensures
            final(self).wf(),
            match r {
                Ok(_) => {
                    &&& legal_move(old(self).board@, pos as int, val)
                    &&& final(self).board@ == board_after(old(self).board@, pos as int, val)
                    &&& final(self).player_turn == !old(self).player_turn
                },
                Err(_) => {
                    &&& !legal_move(old(self).board@, pos as int, val)
                    &&& *final(self) == *old(self)
                },
            },
    {
        let ghost init = *self;
        let ghost oc = self.board@;
        let ghost posi = pos as int;

        // Reject a cell outside the side's current legal-move set.
        let in_set = if val == 1 {
            iset_contains(&self.player_available_actions, pos)
        } else {
            iset_contains(&self.cpu_available_actions, pos)
        };
        if !in_set {
            proof {
                assert(!legal_move(oc, posi, val));
            }
            return Err(IllegalMove);
        }
        proof {
            assert(legal_move(oc, posi, val));
        }

        // Place the piece and flip every captured run, all runs having
        // been read off the grid as it stood before the move.
        let flips = collect_flips(&self.board, pos, val);
        let ghost fl = flips@;
        self.add(pos, val);
        proof {
            assert(fl.take(0) =~= Seq::<u8>::empty());
        }
        let mut fi: usize = 0;
        while fi < flips.len()
            invariant
                valid_cells(oc),
                is_piece(val),
                pos < 64,
                posi == pos as int,
                legal_move(oc, posi, val),
                fl == flips@,
                forall|q: u8| #[trigger] fl.contains(q) <==> flipped(oc, posi, val, q as int),
                forall|j: int| 0 <= j < fl.len() ==> fl[j] < 64,
                fi <= fl.len(),
                self.board@.len() == 64,
                forall|q: int|
                    0 <= q < 64 ==> #[trigger] self.board@[q] == (if q == posi || fl.take(
                        fi as int,
                    ).contains(q as u8) {
                        val
                    } else {
                        oc[q]
                    }),
                self.width == init.width,
                self.height == init.height,
                self.board_size == init.board_size,
                self.perimeter == init.perimeter,
                self.player_available_actions == init.player_available_actions,
                self.cpu_available_actions == init.cpu_available_actions,
                self.player_turn == init.player_turn,
            decreases fl.len() - fi,
        {
            let f = flips[fi];
            proof {
                assert(fl.contains(fl[fi as int]));
                lemma_flipped_was_opponent(oc, posi, val, f as int);
            }
            self.add(f, val);
            proof {
                assert(fl.take(fi as int + 1) =~= fl.take(fi as int).push(f));
                assert forall|q: int| 0 <= q < 64 implies #[trigger] self.board@[q] == (if q == posi
                    || fl.take(fi as int + 1).contains(q as u8) {
                    val
                } else {
                    oc[q]
                }) by {
                    if q == f as int {
                        assert(fl.take(fi as int + 1).contains(f));
                    }
                }
            }
            fi = fi + 1;
        }
        proof {
            assert(fl.take(fl.len() as int) =~= fl);
            lemma_board_after_valid(oc, posi, val);
            assert forall|q: int| 0 <= q < 64 implies self.board@[q] == board_after(
                oc,
                posi,
                val,
            )[q] by {
                if q != posi {
                    if flipped(oc, posi, val, q) {
                        assert(fl.contains(q as u8));
                    } else {
                        assert(!fl.contains(q as u8));
                    }
                }
            }
            assert(self.board@ =~= board_after(oc, posi, val));
        }
        let ghost nc = self.board@;
        proof {
            lemma_board_after_occupancy(oc, posi, val);
            assert(nc[posi] == val);
        }

        // The placed cell leaves the perimeter; every still-empty
        // neighbour of it joins, each step bounds-checked.
        iset_remove(&mut self.perimeter, pos);
        let ghost mid_peri = iset_seq(self.perimeter);
        proof {
            assert forall|p: u8| #[trigger]
                mid_peri.contains(p) <==> (perimeter_cell(oc, p as int) && p != pos) by {
                assert(iset_seq(init.perimeter).contains(p) <==> perimeter_cell(oc, p as int));
            }
        }
        let mut dir: u8 = 0;
        while dir < 8
            invariant
                valid_cells(oc),
                valid_cells(nc),
                is_piece(val),
                pos < 64,
                posi == pos as int,
                legal_move(oc, posi, val),
                nc == board_after(oc, posi, val),
                nc[posi] == val,
                self.board@ == nc,
                dir <= 8,
                forall|p: u8|
                    #[trigger] iset_seq(self.perimeter).contains(p) <==> (mid_peri.contains(p) || (
                    exists|d: int|
                        0 <= d < dir as int && #[trigger] step_ok(posi, d, 1) && p as int
                            == step_idx(posi, d, 1) && nc[p as int] == 0)),
                forall|p: u8|
                    #[trigger] mid_peri.contains(p) <==> (perimeter_cell(oc, p as int) && p != pos),
                self.width == init.width,
                self.height == init.height,
                self.board_size == init.board_size,
                self.player_available_actions == init.player_available_actions,
                self.cpu_available_actions == init.cpu_available_actions,
                self.player_turn == init.player_turn,
            decreases 8 - dir,
        {
            let ghost dprev = iset_seq(self.perimeter);
            match get_new_pos(dir, pos, 1, 64) {
                Some(np) => {
                    if self.board[np as usize] == 0 {
                        iset_insert(&mut self.perimeter, np);
                        proof {
                            assert forall|p: u8| #[trigger]
                                iset_seq(self.perimeter).contains(p) <==> (mid_peri.contains(p)
                                    || (exists|d: int|
                                    0 <= d < dir as int + 1 && #[trigger] step_ok(posi, d, 1)
                                        && p as int == step_idx(posi, d, 1) && nc[p as int]
                                        == 0)) by {
                                if iset_seq(self.perimeter).contains(p) {
                                    if !dprev.contains(p) {
                                        assert(p == np);
                                        assert(step_ok(posi, dir as int, 1) && p as int == step_idx(
                                            posi,
                                            dir as int,
                                            1,
                                        ) && nc[p as int] == 0);
                                    }
                                } else {
                                    if exists|d: int|
                                        0 <= d < dir as int + 1 && #[trigger] step_ok(posi, d, 1)
                                            && p as int == step_idx(posi, d, 1) && nc[p as int]
                                            == 0 {
                                        let d = choose|d: int|
                                            0 <= d < dir as int + 1 && #[trigger] step_ok(
                                                posi,
                                                d,
                                                1,
                                            ) && p as int == step_idx(posi, d, 1) && nc[p as int]
                                                == 0;
                                        if d == dir as int {
                                            assert(p as int == np as int);
                                            assert(iset_seq(self.perimeter).contains(np));
                                        }
                                    }
                                }
                            }
                        }
                    } else {
                        proof {
                            assert forall|p: u8| #[trigger]
                                iset_seq(self.perimeter).contains(p) <==> (mid_peri.contains(p)
                                    || (exists|d: int|
                                    0 <= d < dir as int + 1 && #[trigger] step_ok(posi, d, 1)
                                        && p as int == step_idx(posi, d, 1) && nc[p as int]
                                        == 0)) by {
                                if !iset_seq(self.perimeter).contains(p) {
                                    if exists|d: int|
                                        0 <= d < dir as int + 1 && #[trigger] step_ok(posi, d, 1)
                                            && p as int == step_idx(posi, d, 1) && nc[p as int]
                                            == 0 {
                                        let d = choose|d: int|
                                            0 <= d < dir as int + 1 && #[trigger] step_ok(
                                                posi,
                                                d,
                                                1,
                                            ) && p as int == step_idx(posi, d, 1) && nc[p as int]
                                                == 0;
                                        if d == dir as int {
                                            assert(p as int == np as int);
                                            assert(nc[np as int] != 0);
                                        }
                                    }
                                }
                            }
                        }
                    }
                },
                None => {
                    proof {
                        assert forall|p: u8| #[trigger]
                            iset_seq(self.perimeter).contains(p) <==> (mid_peri.contains(p) || (
                            exists|d: int|
                                0 <= d < dir as int + 1 && #[trigger] step_ok(posi, d, 1)
                                    && p as int == step_idx(posi, d, 1) && nc[p as int] == 0)) by {
                            if !iset_seq(self.perimeter).contains(p) {
                                if exists|d: int|
                                    0 <= d < dir as int + 1 && #[trigger] step_ok(posi, d, 1)
                                        && p as int == step_idx(posi, d, 1) && nc[p as int] == 0 {
                                    let d = choose|d: int|
                                        0 <= d < dir as int + 1 && #[trigger] step_ok(posi, d, 1)
                                            && p as int == step_idx(posi, d, 1) && nc[p as int]
                                            == 0;
                                    assert(d != dir as int);
                                }
                            }
                        }
                    }
                },
            }
            dir = dir + 1;
        }
        proof {
            assert forall|p: u8| #[trigger]
                iset_seq(self.perimeter).contains(p) <==> perimeter_cell(nc, p as int) by {
                if iset_seq(self.perimeter).contains(p) {
                    if mid_peri.contains(p) {
                        lemma_perimeter_monotone(oc, posi, val, p as int);
                    } else {
                        let d = choose|d: int|
                            0 <= d < 8 && #[trigger] step_ok(posi, d, 1) && p as int == step_idx(
                                posi,
                                d,
                                1,
                            ) && nc[p as int] == 0;
                        lemma_step_idx_range(posi, d, 1);
                        lemma_step_symmetry(posi, d, p as int);
                        assert(step_ok(p as int, opposite_dir(d), 1) && nc[step_idx(
                            p as int,
                            opposite_dir(d),
                            1,
                        )] != 0);
                        assert(occupied_neighbor(nc, p as int));
                    }
                } else {
                    if perimeter_cell(nc, p as int) {
                        assert(p as int != posi);
                        let d0 = choose|d: int|
                            0 <= d < 8 && #[trigger] step_ok(p as int, d, 1) && nc[step_idx(
                                p as int,
                                d,
                                1,
                            )] != 0;
                        lemma_step_idx_range(p as int, d0, 1);
                        let m = step_idx(p as int, d0, 1);
                        if oc[m] != 0 {
                            assert(occupied_neighbor(oc, p as int));
                            assert(perimeter_cell(oc, p as int));
                            assert(iset_seq(init.perimeter).contains(p));
                            assert(mid_peri.contains(p));
                        } else {
                            assert(m == posi);
                            lemma_step_symmetry(p as int, d0, m);
                            assert(step_ok(posi, opposite_dir(d0), 1) && p as int == step_idx(
                                posi,
                                opposite_dir(d0),
                                1,
                            ) && nc[p as int] == 0);
                        }
                    }
                }
            }
        }

        // Both sides lose the placed cell as a move; legality is then
        // re-derived for the placed cell's whole new perimeter, for both
        // sides, since one side's move can open or close moves for
        // either.
        iset_remove(&mut self.player_available_actions, pos);
        iset_remove(&mut self.cpu_available_actions, pos);
        let ghost pa0 = iset_seq(self.player_available_actions);
        let ghost ca0 = iset_seq(self.cpu_available_actions);
        proof {
            assert forall|p: u8| #[trigger]
                pa0.contains(p) <==> (legal_move(oc, p as int, 1) && p != pos) by {
                assert(iset_seq(init.player_available_actions).contains(p) <==> legal_move(
                    oc,
                    p as int,
                    1,
                ));
            }
            assert forall|p: u8| #[trigger]
                ca0.contains(p) <==> (legal_move(oc, p as int, 2) && p != pos) by {
                assert(iset_seq(init.cpu_available_actions).contains(p) <==> legal_move(
                    oc,
                    p as int,
                    2,
                ));
            }
        }
        let peri = iset_to_vec(&self.perimeter);
        proof {
            assert forall|j: int| 0 <= j < peri@.len() implies peri@[j] < 64 by {
                assert(iset_seq(self.perimeter).contains(peri@[j]));
                assert(perimeter_cell(nc, peri@[j] as int));
            }
            assert(peri@.take(0) =~= Seq::<u8>::empty());
        }
        let ghost peri_set = self.perimeter;
        let ghost ca_set = self.cpu_available_actions;
        let mut ti: usize = 0;
        while ti < peri.len()
            invariant
                valid_cells(oc),
                valid_cells(nc),
                is_piece(val),
                pos < 64,
                posi == pos as int,
                legal_move(oc, posi, val),
                nc == board_after(oc, posi, val),
                nc[posi] == val,
                self.board@ == nc,
                ti <= peri@.len(),
                self.perimeter == peri_set,
                peri@ == iset_seq(peri_set),
                forall|j: int| 0 <= j < peri@.len() ==> peri@[j] < 64,
                forall|p: u8|
                    #[trigger] iset_seq(self.perimeter).contains(p) <==> perimeter_cell(
                        nc,
                        p as int,
                    ),
                forall|p: u8|
                    #[trigger] pa0.contains(p) <==> (legal_move(oc, p as int, 1) && p != pos),
                forall|p: u8|
                    #[trigger] iset_seq(self.player_available_actions).contains(p) <==> (if peri@
                        .take(ti as int).contains(p) {
                        legal_move(nc, p as int, 1)
                    } else {
                        pa0.contains(p)
                    }),
                self.cpu_available_actions == ca_set,
                self.width == init.width,
                self.height == init.height,
                self.board_size == init.board_size,
                self.player_turn == init.player_turn,
            decreases peri@.len() - ti,
        {
            let t = peri[ti];
            let ghost sp = iset_seq(self.player_available_actions);
            self.check_tile_actions(t, 1);
            proof {
                assert(peri@.take(ti as int + 1) =~= peri@.take(ti as int).push(t));
                assert forall|p: u8| #[trigger]
                    iset_seq(self.player_available_actions).contains(p) <==> (if peri@.take(
                    ti as int + 1,
                ).contains(p) {
                    legal_move(nc, p as int, 1)
                } else {
                    pa0.contains(p)
                }) by {
                    if p != t {
                        assert(iset_seq(self.player_available_actions).contains(p) <==> sp.contains(
                            p,
                        ));
                        assert(peri@.take(ti as int + 1).contains(p) <==> peri@.take(
                            ti as int,
                        ).contains(p));
                    }
                }
            }
            ti = ti + 1;
        }
        let ghost pa_set = self.player_available_actions;
        let mut tj: usize = 0;
        while tj < peri.len()
            invariant
                valid_cells(oc),
                valid_cells(nc),
                is_piece(val),
                pos < 64,
                posi == pos as int,
                legal_move(oc, posi, val),
                nc == board_after(oc, posi, val),
                nc[posi] == val,
                self.board@ == nc,
                tj <= peri@.len(),
                self.perimeter == peri_set,
                peri@ == iset_seq(peri_set),
                forall|j: int| 0 <= j < peri@.len() ==> peri@[j] < 64,
                forall|p: u8|
                    #[trigger] iset_seq(self.perimeter).contains(p) <==> perimeter_cell(
                        nc,
                        p as int,
                    ),
                forall|p: u8|
                    #[trigger] ca0.contains(p) <==> (legal_move(oc, p as int, 2) && p != pos),
                forall|p: u8|
                    #[trigger] iset_seq(self.cpu_available_actions).contains(p) <==> (if peri@.take(
                        tj as int,
                    ).contains(p) {
                        legal_move(nc, p as int, 2)
                    } else {
                        ca0.contains(p)
                    }),
                self.player_available_actions == pa_set,
                self.width == init.width,
                self.height == init.height,
                self.board_size == init.board_size,
                self.player_turn == init.player_turn,
            decreases peri@.len() - tj,
        {
            let t = peri[tj];
            let ghost sp = iset_seq(self.cpu_available_actions);
            self.check_tile_actions(t, 2);
            proof {
                assert(peri@.take(tj as int + 1) =~= peri@.take(tj as int).push(t));
                assert forall|p: u8| #[trigger]
                    iset_seq(self.cpu_available_actions).contains(p) <==> (if peri@.take(
                    tj as int + 1,
                ).contains(p) {
                    legal_move(nc, p as int, 2)
                } else {
                    ca0.contains(p)
                }) by {
                    if p != t {
                        assert(iset_seq(self.cpu_available_actions).contains(p) <==> sp.contains(
                            p,
                        ));
                        assert(peri@.take(tj as int + 1).contains(p) <==> peri@.take(
                            tj as int,
                        ).contains(p));
                    }
                }
            }
            tj = tj + 1;
        }
        proof {
            assert(peri@.take(peri@.len() as int) =~= peri@);
            assert forall|p: u8| #[trigger]
                iset_seq(self.player_available_actions).contains(p) <==> legal_move(
                    nc,
                    p as int,
                    1,
                ) by {
                if !peri@.contains(p) {
                    assert(!iset_seq(self.perimeter).contains(p));
                    assert(!perimeter_cell(nc, p as int));
                    if p == pos {
                        assert(nc[posi] == val);
                    } else {
                        lemma_legality_needs_perimeter(oc, posi, val, p as int, 1);
                    }
                }
            }
            assert forall|p: u8| #[trigger]
                iset_seq(self.cpu_available_actions).contains(p) <==> legal_move(
                    nc,
                    p as int,
                    2,
                ) by {
                if !peri@.contains(p) {
                    assert(!iset_seq(self.perimeter).contains(p));
                    assert(!perimeter_cell(nc, p as int));
                    if p == pos {
                        assert(nc[posi] == val);
                    } else {
                        lemma_legality_needs_perimeter(oc, posi, val, p as int, 2);
                    }
                }
            }
        }

        // The turn passes to the other side.
        if self.player_turn {
            self.player_turn = false;
        } else {
            self.player_turn = true;
        }
        Ok(())
    }
}

/// LAW (legality symmetry): under the engine invariant — so in particular
/// after any applied move — neither side's recomputed legal-move set
/// contains an occupied cell.
pub proof fn lemma_action_sets_hold_no_occupied_cell(b: Board)
    requires
        b.wf(),
    ensures
        forall|p: u8|
            #[trigger] iset_seq(b.player_available_actions).contains(p) ==> b.board@[p as int]
                == 0,
        forall|p: u8|
            #[trigger] iset_seq(b.cpu_available_actions).contains(p) ==> b.board@[p as int] == 0,
{
    assert forall|p: u8| #[trigger]
        iset_seq(b.player_available_actions).contains(p) implies b.board@[p as int] == 0 by {
        assert(legal_move(b.board@, p as int, 1));
    }
    assert forall|p: u8| #[trigger]
        iset_seq(b.cpu_available_actions).contains(p) implies b.board@[p as int] == 0 by {
        assert(legal_move(b.board@, p as int, 2));
    }
}

} // verus!
