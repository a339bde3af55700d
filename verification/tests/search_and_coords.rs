use reversi::board::{Board, GameState};
use reversi::coords::convert_2d;
use reversi::geometry::get_new_pos;
use reversi::search::{get_max_tile, monte_carlo_tree_search, random_playout, Difficulty};

fn cells_with(pieces: &[(usize, u8)]) -> Vec<u8> {
    let mut v = vec![0u8; 64];
    for &(i, val) in pieces {
        v[i] = val;
    }
    v
}

#[test]
fn west_directions_never_wrap_from_column_0() {
    for row in 0..8u8 {
        let pos = row * 8;
        assert_eq!(get_new_pos(1, pos, 1, 64), None); // west
        assert_eq!(get_new_pos(4, pos, 1, 64), None); // north-west
        assert_eq!(get_new_pos(6, pos, 1, 64), None); // south-west
    }
}

#[test]
fn east_directions_never_wrap_from_column_7() {
    for row in 0..8u8 {
        let pos = row * 8 + 7;
        assert_eq!(get_new_pos(0, pos, 1, 64), None); // east
        assert_eq!(get_new_pos(5, pos, 1, 64), None); // north-east
        assert_eq!(get_new_pos(7, pos, 1, 64), None); // south-east
    }
}

#[test]
fn steps_inside_the_board() {
    assert_eq!(get_new_pos(0, 0, 1, 64), Some(1)); // east
    assert_eq!(get_new_pos(2, 0, 1, 64), Some(8)); // south
    assert_eq!(get_new_pos(7, 0, 1, 64), Some(9)); // south-east
    assert_eq!(get_new_pos(3, 0, 1, 64), None); // north off the top
    assert_eq!(get_new_pos(2, 0, 8, 64), None); // south off the bottom
    assert_eq!(get_new_pos(0, 8, 3, 64), Some(11)); // several steps east
    assert_eq!(get_new_pos(3, 60, 2, 64), Some(44)); // several steps north
    assert_eq!(get_new_pos(9, 10, 1, 64), None); // no such direction
}

#[test]
fn max_tile_picks_the_biggest_capture() {
    // Computer to move; 3 captures two pieces, 16 captures one.
    let cells = cells_with(&[(0, 2), (1, 1), (2, 1), (8, 1)]);
    let b = Board::from_cells(cells, false);
    let cpu = b.get_cpu_actions();
    assert_eq!(cpu.len(), 2);
    assert!(cpu.contains(&3) && cpu.contains(&16));
    assert_eq!(get_max_tile(&b), 3);
}

#[test]
fn search_returns_the_single_legal_move() {
    // Exactly one legal computer move exists (cell 2), so the search has
    // to return it even with a single iteration.
    let cells = cells_with(&[(0, 2), (1, 1)]);
    let b = Board::from_cells(cells, false);
    assert_eq!(b.get_cpu_actions().len(), 1);
    assert!(b.get_cpu_actions().contains(&2));
    assert_eq!(monte_carlo_tree_search(&b, 1, 5, Difficulty::Easy), 2);
    assert_eq!(monte_carlo_tree_search(&b, 1, 5, Difficulty::Hard), 2);
}

#[test]
fn search_result_is_always_legal_on_the_starting_board() {
    let mut b = Board::new(8, 8);
    assert!(b.ins(19, 1).is_ok()); // hand the turn to the computer
    let legal = b.get_cpu_actions();
    let choice = monte_carlo_tree_search(&b, 3, 5, Difficulty::Easy);
    assert!(legal.contains(&choice));
    assert!(b.ins(choice, 2).is_ok());
}

#[test]
fn playout_reaches_a_terminal_state() {
    let cells = cells_with(&[(0, 2), (1, 1)]);
    let mut b = Board::from_cells(cells, false);
    let outcome = random_playout(&mut b, 2, Difficulty::Easy);
    // The single move wipes the player out: 3 pieces to none.
    assert_eq!(outcome, GameState::CpuWin);
    assert_eq!(b.get_score(), (0, 3));
    assert_ne!(b.check_game_state(), GameState::InProgress);
}

#[test]
fn playout_from_the_opening_finishes_the_game() {
    let mut live = Board::new(8, 8);
    let sim = live.clone();
    for difficulty in [Difficulty::Easy, Difficulty::Hard] {
        let mut playout_board = sim.clone();
        let outcome = random_playout(&mut playout_board, 19, difficulty);
        assert_ne!(outcome, GameState::InProgress);
        assert_eq!(playout_board.check_game_state(), outcome);
    }
    // The live board was never touched by the simulations.
    assert_eq!(live.get_score(), (2, 2));
    assert!(live.ins(19, 1).is_ok());
}

#[test]
fn convert_coordinates() {
    assert_eq!(convert_2d("a1"), 0);
    assert_eq!(convert_2d("A1"), 0);
    assert_eq!(convert_2d("h1"), 7);
    assert_eq!(convert_2d("a8"), 56);
    assert_eq!(convert_2d("h8"), 63);
    assert_eq!(convert_2d("d3"), 19);
    assert_eq!(convert_2d("E4"), 28);
}
