use reversi::board::{Board, GameState};

fn cells_with(pieces: &[(usize, u8)]) -> Vec<u8> {
    let mut v = vec![0u8; 64];
    for &(i, val) in pieces {
        v[i] = val;
    }
    v
}

#[test]
fn starting_state_score_and_moves() {
    let b = Board::new(8, 8);
    assert_eq!(b.get_score(), (2, 2));
    assert!(b.is_player_turn());

    let player = b.get_player_actions();
    assert_eq!(player.len(), 4);
    for idx in [19u8, 26, 37, 44] {
        assert!(player.contains(&idx));
    }

    let cpu = b.get_cpu_actions();
    assert_eq!(cpu.len(), 4);
    for idx in [20u8, 29, 34, 43] {
        assert!(cpu.contains(&idx));
    }
}

#[test]
fn starting_perimeter() {
    let b = Board::new(8, 8);
    let peri = b.get_perimeter();
    assert_eq!(peri.len(), 12);
    for idx in [18u8, 19, 20, 21, 26, 29, 34, 37, 42, 43, 44, 45] {
        assert!(peri.contains(&idx));
    }
}

#[test]
fn opening_move_flips_one() {
    let mut b = Board::new(8, 8);
    assert!(b.ins(19, 1).is_ok());
    assert_eq!(b.get_score(), (4, 1));
    assert_eq!(b.board[19], 1);
    assert_eq!(b.board[27], 1); // flipped
    assert_eq!(b.board[28], 1);
    assert_eq!(b.board[35], 1);
    assert_eq!(b.board[36], 2); // untouched
    assert!(!b.is_player_turn());
}

#[test]
fn opening_move_updates_sets() {
    let mut b = Board::new(8, 8);
    assert!(b.ins(19, 1).is_ok());

    let peri = b.get_perimeter();
    assert!(!peri.contains(&19));
    for idx in [10u8, 11, 12, 18, 20, 26] {
        assert!(peri.contains(&idx));
    }

    let cpu = b.get_cpu_actions();
    assert_eq!(cpu.len(), 3);
    for idx in [18u8, 20, 34] {
        assert!(cpu.contains(&idx));
    }
}

#[test]
fn illegal_move_rejected_and_board_untouched() {
    let mut b = Board::new(8, 8);
    assert!(b.ins(0, 1).is_err());
    assert_eq!(b.get_score(), (2, 2));
    assert!(b.is_player_turn());
    assert_eq!(b.get_player_actions().len(), 4);
    assert_eq!(b.get_perimeter().len(), 12);
}

#[test]
fn illegal_move_on_occupied_cell() {
    let mut b = Board::new(8, 8);
    assert!(b.ins(27, 1).is_err());
    assert!(b.ins(28, 2).is_err());
    assert_eq!(b.get_score(), (2, 2));
}

#[test]
fn flips_in_several_directions_at_once() {
    // Placing at 2 captures west (1), east (3) and south (10) at once.
    let cells = cells_with(&[(0, 1), (1, 2), (3, 2), (4, 1), (10, 2), (18, 1)]);
    let mut b = Board::from_cells(cells, true);
    assert_eq!(b.get_score(), (3, 3));
    assert!(b.ins(2, 1).is_ok());
    assert_eq!(b.get_score(), (7, 0));
    for idx in [0usize, 1, 2, 3, 4, 10, 18] {
        assert_eq!(b.board[idx], 1);
    }
}

#[test]
fn cells_beyond_an_empty_gap_are_not_flipped() {
    // From 3 the west run (2 at index 2) is terminated by the empty cell
    // at index 1, so it must not flip; the capture at 11 makes 3 legal.
    let cells = cells_with(&[(0, 1), (2, 2), (11, 2), (19, 1)]);
    let mut b = Board::from_cells(cells, true);
    assert!(b.ins(3, 1).is_ok());
    assert_eq!(b.board[2], 2); // behind the gap: untouched
    assert_eq!(b.board[11], 1); // captured
    assert_eq!(b.get_score(), (4, 1));
}

#[test]
fn score_conservation_over_moves() {
    let mut b = Board::new(8, 8);
    let (player_before, cpu_before) = b.get_score();
    assert_eq!(player_before + cpu_before, 4);

    assert!(b.ins(19, 1).is_ok());
    let (player_mid, cpu_mid) = b.get_score();
    assert_eq!(player_mid + cpu_mid, 5);

    // Any currently legal computer move keeps the total growing by one.
    let cpu = b.get_cpu_actions();
    let mv = *cpu.get_index(0).unwrap();
    assert!(b.ins(mv, 2).is_ok());
    let (player_after, cpu_after) = b.get_score();
    assert_eq!(player_after + cpu_after, 6);
}

#[test]
fn terminal_detection_full_boards() {
    let all_player = Board::from_cells(vec![1u8; 64], true);
    assert_eq!(all_player.check_game_state(), GameState::PlayerWin);

    let all_cpu = Board::from_cells(vec![2u8; 64], true);
    assert_eq!(all_cpu.check_game_state(), GameState::CpuWin);

    let mut half = vec![1u8; 64];
    for cell in half.iter_mut().skip(32) {
        *cell = 2;
    }
    let draw_board = Board::from_cells(half, true);
    assert_eq!(draw_board.check_game_state(), GameState::Draw);
}

#[test]
fn terminal_as_soon_as_one_side_is_blocked() {
    // The computer could still move at 2, but the player has no move at
    // all, so the game is already over; equal counts make it a draw.
    let cells = cells_with(&[(0, 2), (1, 1)]);
    let b = Board::from_cells(cells, false);
    assert_eq!(b.get_cpu_actions().len(), 1);
    assert_eq!(b.get_player_actions().len(), 0);
    assert_eq!(b.check_game_state(), GameState::Draw);
}

#[test]
fn starting_board_is_in_progress() {
    let b = Board::new(8, 8);
    assert_eq!(b.check_game_state(), GameState::InProgress);
}

#[test]
fn clone_isolation() {
    let b = Board::new(8, 8);
    let mut c = b.clone();
    assert!(c.ins(19, 1).is_ok());

    // The clone changed ...
    assert_eq!(c.get_score(), (4, 1));
    assert_eq!(c.board[19], 1);
    assert!(!c.is_player_turn());

    // ... and the original is completely untouched.
    assert_eq!(b.get_score(), (2, 2));
    assert_eq!(b.board[19], 0);
    assert_eq!(b.board[27], 2);
    assert!(b.is_player_turn());
    assert_eq!(b.get_player_actions().len(), 4);
    assert!(b.get_player_actions().contains(&19));
    assert_eq!(b.get_perimeter().len(), 12);
    assert!(b.get_perimeter().contains(&19));
}

#[test]
fn available_actions_follow_the_turn() {
    let mut b = Board::new(8, 8);
    let now = b.get_available_actions();
    assert!(now.contains(&19) && now.contains(&26));
    assert!(b.ins(19, 1).is_ok());
    let then = b.get_available_actions();
    assert!(then.contains(&18) && then.contains(&20) && then.contains(&34));
}
