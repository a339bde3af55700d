//! The playout search that picks the computer's move: for each candidate
//! move it repeatedly clones the live board, applies the candidate and
//! plays the game out with randomized (or one-ply greedy) move choices,
//! then returns the candidate with the most simulated wins — or a
//! uniformly random candidate when no simulation won — within an
//! iteration and wall-clock budget.

use vstd::prelude::*;
use std::time::{Duration, Instant};
use crate::board::{Board, GameState};
use crate::rules::{
    legal_move, board_after, count_val, lemma_score_conservation, lemma_count_bounds,
    lemma_board_after_occupancy,
};
use crate::iset::{iset_seq, iset_to_vec};

verus! {

/// The simulated opponent's policy during playouts: uniformly random
/// moves, or a one-step greedy heuristic that maximises its own score.
#[derive(Clone, Copy, PartialEq, Eq, Debug, Structural)]
pub enum Difficulty {
    Easy,
    Hard,
}

#[verifier::external_type_specification]
#[verifier::external_body]
pub struct ExInstant(Instant);

/// Relies on `std::time::Instant::now`: an opaque timestamp taken at the
/// call, later used only to measure how long the search has run.
#[verifier::external_body]
fn now_instant() -> Instant {
    Instant::now()
}

/// Relies on `std::time::Instant::elapsed`: the time since `start` was
/// taken.  Nothing is assumed of the clock.
#[verifier::external_body]
fn instant_elapsed(start: &Instant) -> Duration {
    start.elapsed()
}

/// Relies on `std::time::Duration::as_secs`: the duration in whole
/// seconds.  Nothing is assumed of the value.
#[verifier::external_body]
fn duration_secs(d: &Duration) -> u64 {
    d.as_secs()
}

/// Relies on `rand::random_range`: a number drawn uniformly from
/// `0..n`, which is below `n`; the range is non-empty, so the call
/// cannot panic.
#[verifier::external_body]
fn random_below(n: usize) -> (r: usize)
    requires
        n >= 1,
    ensures
        r < n,
{
    rand::random_range(0..n)
}

/// The computer's score after it plays `a` on `cells`.
pub open spec fn cpu_result_score(cells: Seq<u8>, a: u8) -> int {
    count_val(board_after(cells, a as int, 2), 2)
}

/// The computer's score after playing `a` on a copy of `b`.
fn result_cpu_score(b: &Board, a: u8) -> (s: u8)
    requires
        b.wf(),
        legal_move(b.board@, a as int, 2),
    ensures
        s as int == cpu_result_score(b.board@, a),
{
    let mut nb = b.clone();
    let res = nb.ins(a, 2);
    proof {
        assert(res is Ok);
    }
    let (_player_score, cpu_score) = nb.get_score();
    cpu_score
}

/// Max tile heuristic: the computer move whose one-ply result gives the
/// computer the highest score, ties broken in favour of the move found
/// first in the legal-move set's own order.
pub fn get_max_tile(b: &Board) -> (r: u8)
    requires
        b.wf(),
        !b.player_turn,
        iset_seq(b.cpu_available_actions).len() > 0,
    ensures
        legal_move(b.board@, r as int, 2),
        exists|i: int|
            #![trigger iset_seq(b.cpu_available_actions)[i]]
            {
                &&& 0 <= i < iset_seq(b.cpu_available_actions).len()
                &&& iset_seq(b.cpu_available_actions)[i] == r
                &&& forall|j: int|
                    0 <= j < iset_seq(b.cpu_available_actions).len() ==> cpu_result_score(
                        b.board@,
                        #[trigger] iset_seq(b.cpu_available_actions)[j],
                    ) <= cpu_result_score(b.board@, r)
                &&& forall|j: int|
                    0 <= j < i ==> cpu_result_score(
                        b.board@,
                        #[trigger] iset_seq(b.cpu_available_actions)[j],
                    ) < cpu_result_score(b.board@, r)
            },
{
    let actions = b.get_available_actions();
    let acts = iset_to_vec(&actions);
    let n = acts.len();
    proof {
        assert(acts@.contains(acts@[0]));
    }
    let mut best_pos: u8 = acts[0];
    let mut best_score: u8 = result_cpu_score(b, best_pos);
    let ghost mut besti: int = 0;
    let mut i: usize = 1;
    while i < n
        invariant
            b.wf(),
            !b.player_turn,
            acts@ == iset_seq(b.cpu_available_actions),
            n == acts@.len(),
            1 <= i <= n,
            0 <= besti < i,
            acts@[besti] == best_pos,
            legal_move(b.board@, best_pos as int, 2),
            best_score as int == cpu_result_score(b.board@, best_pos),
            forall|j: int|
                0 <= j < i ==> cpu_result_score(b.board@, #[trigger] acts@[j]) <= best_score as int,
            forall|j: int|
                0 <= j < besti ==> cpu_result_score(b.board@, #[trigger] acts@[j])
                    < best_score as int,
        decreases n - i,
    {
        let a = acts[i];
        proof {
            assert(acts@.contains(acts@[i as int]));
        }
        let s = result_cpu_score(b, a);
        if s > best_score {
            best_pos = a;
            best_score = s;
            proof {
                besti = i as int;
            }
        }
        i = i + 1;
    }
    proof {
        assert(iset_seq(b.cpu_available_actions)[besti] == best_pos);
    }
    best_pos
}

/// Play the game out to a terminal state on `b`: first the given move by
/// the side to move, then alternating turns — the computer by the chosen
/// difficulty's policy, the player uniformly at random — until either
/// side runs out of moves.  Returns the terminal state reached.
pub fn random_playout(b: &mut Board, action: u8, diff: Difficulty) -> (r: GameState)
    requires
        old(b).wf(),
        legal_move(old(b).board@, action as int, old(b).mover()),
    ensures
        final(b).wf(),
        r == crate::board::game_state_of(final(b).board@),
        r != GameState::InProgress,
        final(b).board@[action as int] != 0,
{
    let mover: u8 = if b.is_player_turn() {
        1
    } else {
        2
    };
    let res = b.ins(action, mover);
    proof {
        assert(res is Ok);
        lemma_board_after_occupancy(old(b).board@, action as int, mover);
        lemma_count_bounds(b.board@, 0);
    }
    loop
        invariant
            b.wf(),
            action < 64,
            b.board@[action as int] != 0,
        decreases count_val(b.board@, 0),
    {
        let state = b.check_game_state();
        match state {
            GameState::InProgress => {},
            _ => {
                return state;
            },
        }
        proof {
            b.lemma_actions_empty_iff_no_move(1);
            b.lemma_actions_empty_iff_no_move(2);
        }
        let ghost pre = *b;
        if b.is_player_turn() {
            let player_set = b.get_player_actions();
            let acts = iset_to_vec(&player_set);
            let idx = random_below(acts.len());
            let a = acts[idx];
            proof {
                assert(acts@.contains(acts@[idx as int]));
            }
            let res2 = b.ins(a, 1);
            proof {
                assert(res2 is Ok);
                lemma_score_conservation(pre.board@, a as int, 1);
                lemma_board_after_occupancy(pre.board@, a as int, 1);
                lemma_count_bounds(b.board@, 0);
            }
        } else {
            match diff {
                Difficulty::Easy => {
                    let cpu_set = b.get_cpu_actions();
                    let acts = iset_to_vec(&cpu_set);
                    let idx = random_below(acts.len());
                    let a = acts[idx];
                    proof {
                        assert(acts@.contains(acts@[idx as int]));
                    }
                    let res2 = b.ins(a, 2);
                    proof {
                        assert(res2 is Ok);
                        lemma_score_conservation(pre.board@, a as int, 2);
                        lemma_board_after_occupancy(pre.board@, a as int, 2);
                        lemma_count_bounds(b.board@, 0);
                    }
                },
                Difficulty::Hard => {
                    let a = get_max_tile(b);
                    let res2 = b.ins(a, 2);
                    proof {
                        assert(res2 is Ok);
                        lemma_score_conservation(pre.board@, a as int, 2);
                        lemma_board_after_occupancy(pre.board@, a as int, 2);
                        lemma_count_bounds(b.board@, 0);
                    }
                },
            }
        }
    }
}

/// Simplified Monte-Carlo search: run up to `max_steps` rounds — or stop
/// once `timer` seconds have passed, checked once per round — each round
/// simulating one full playout per candidate move; then return the
/// candidate with the most simulated computer wins, the first such in
/// the set's order, or a uniformly random candidate when no simulation
/// produced a win.  The result is always a legal computer move.
pub fn monte_carlo_tree_search(b: &Board, max_steps: usize, timer: usize, diff: Difficulty) -> (r:
    u8)
    requires
        b.wf(),
        !b.player_turn,
        iset_seq(b.cpu_available_actions).len() > 0,
    ensures
        legal_move(b.board@, r as int, 2),
{
    let start = now_instant();
    let actions = b.get_available_actions();
    let acts = iset_to_vec(&actions);
    let n = acts.len();
    let mut wins: Vec<usize> = Vec::new();
    let mut z: usize = 0;
    while z < n
        invariant
            z <= n,
            wins@.len() == z as int,
            forall|j: int| 0 <= j < z as int ==> wins@[j] == 0,
        decreases n - z,
    {
        wins.push(0);
        z = z + 1;
    }
    let mut step: usize = 0;
    while step < max_steps
        invariant
            b.wf(),
            !b.player_turn,
            acts@ == iset_seq(b.cpu_available_actions),
            n == acts@.len(),
            n > 0,
            wins@.len() == n as int,
            step <= max_steps,
            forall|j: int| 0 <= j < n as int ==> #[trigger] wins@[j] <= step,
        decreases max_steps - step,
    {
        let d = instant_elapsed(&start);
        if duration_secs(&d) >= timer as u64 {
            step = max_steps;
        } else {
            let mut ai: usize = 0;
            while ai < n
                invariant
                    b.wf(),
                    !b.player_turn,
                    acts@ == iset_seq(b.cpu_available_actions),
                    n == acts@.len(),
                    wins@.len() == n as int,
                    ai <= n,
                    step < max_steps,
                    forall|j: int| 0 <= j < ai as int ==> #[trigger] wins@[j] <= step + 1,
                    forall|j: int| ai as int <= j < n as int ==> #[trigger] wins@[j] <= step,
                decreases n - ai,
            {
                let a = acts[ai];
                proof {
                    assert(acts@.contains(acts@[ai as int]));
                }
                let mut playout_board = b.clone();
                let outcome = random_playout(&mut playout_board, a, diff);
                if outcome == GameState::CpuWin {
                    let w = wins[ai];
                    wins.set(ai, w + 1);
                }
                ai = ai + 1;
            }
            step = step + 1;
        }
    }
    let mut best_i: usize = 0;
    let mut best_w: usize = wins[0];
    let mut i: usize = 1;
    while i < n
        invariant
            n == acts@.len(),
            wins@.len() == n as int,
            n > 0,
            1 <= i <= n,
            best_i < i,
            best_w == wins@[best_i as int],
        decreases n - i,
    {
        if wins[i] > best_w {
            best_i = i;
            best_w = wins[i];
        }
        i = i + 1;
    }
    let r = if best_w == 0 {
        let ri = random_below(n);
        proof {
            assert(acts@.contains(acts@[ri as int]));
        }
        acts[ri]
    } else {
        proof {
            assert(acts@.contains(acts@[best_i as int]));
        }
        acts[best_i]
    };
    r
}

/// LAW (search degeneracy): the search always returns a legal computer
/// move, so whenever exactly one legal computer move exists — whatever
/// the iteration budget, even a single round — the returned move is that
/// one.
pub proof fn lemma_forced_move(cells: Seq<u8>, m: u8, r: u8)
    requires
        legal_move(cells, m as int, 2),
        forall|p: int| #[trigger] legal_move(cells, p, 2) ==> p == m as int,
        legal_move(cells, r as int, 2),
    ensures
        r == m,
{
    assert(r as int == m as int);
}

} // verus!
