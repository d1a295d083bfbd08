use mancala_bot::game_state::{GameState, Player, PlayerState, HOLES_PER_SIDE};

fn state(cur_player: Player, one: [u8; 6], store_one: u8, two: [u8; 6], store_two: u8) -> GameState {
    GameState {
        cur_player,
        p1_state: PlayerState { holes: one, store: store_one },
        p2_state: PlayerState { holes: two, store: store_two },
    }
}

#[test]
fn starting_position_has_six_moves() {
    let g = GameState::default();
    assert_eq!(g.cur_player, Player::Player1);
    assert_eq!(g.p1_state.holes, [4; HOLES_PER_SIDE]);
    assert_eq!(g.p2_state.holes, [4; HOLES_PER_SIDE]);
    assert_eq!(g.p1_state.store, 0);
    assert_eq!(g.p2_state.store, 0);
    assert_eq!(g.valid_moves(), vec![0, 1, 2, 3, 4, 5]);
    assert_eq!(g.result(), None);
}

#[test]
fn last_stone_in_store_gives_extra_turn() {
    let mut g = GameState::default();
    g.make_move(3);
    assert_eq!(g.cur_player, Player::Player1);
    assert_eq!(g.p1_state.holes, [5, 5, 5, 0, 4, 4]);
    assert_eq!(g.p1_state.store, 1);
    assert_eq!(g.p2_state.holes, [4; 6]);
}

#[test]
fn move_passing_store_sows_into_opponent_side() {
    let mut g = GameState::default();
    g.make_move(0);
    assert_eq!(g.cur_player, Player::Player2);
    assert_eq!(g.p1_state.holes, [0, 4, 4, 4, 4, 4]);
    assert_eq!(g.p1_state.store, 1);
    assert_eq!(g.p2_state.holes, [4, 4, 4, 5, 5, 5]);
    assert_eq!(g.p2_state.store, 0);
}

#[test]
fn short_move_stays_on_own_side() {
    let mut g = GameState::default();
    g.make_move(5);
    assert_eq!(g.cur_player, Player::Player2);
    assert_eq!(g.p1_state.holes, [4, 5, 5, 5, 5, 0]);
    assert_eq!(g.p1_state.store, 0);
    assert_eq!(g.p2_state.holes, [4; 6]);
}

#[test]
fn player_two_sows_into_own_store_and_player_one_side() {
    let mut g = state(Player::Player2, [4; 6], 0, [4, 4, 4, 4, 4, 4], 0);
    g.make_move(2);
    assert_eq!(g.p2_state.holes, [5, 5, 0, 4, 4, 4]);
    assert_eq!(g.p2_state.store, 1);
    assert_eq!(g.p1_state.holes, [4, 4, 4, 4, 4, 5]);
    assert_eq!(g.cur_player, Player::Player1);
}

#[test]
fn capture_takes_opposite_hole_and_landing_stone() {
    let mut g = state(Player::Player1, [0, 1, 0, 0, 0, 2], 0, [1, 1, 1, 1, 1, 3], 0);
    g.make_move(1);
    assert_eq!(g.p1_state.holes, [0, 0, 0, 0, 0, 2]);
    assert_eq!(g.p1_state.store, 4);
    assert_eq!(g.p2_state.holes, [1, 1, 1, 1, 1, 0]);
    assert_eq!(g.cur_player, Player::Player2);
}

#[test]
fn no_capture_when_opposite_hole_is_empty() {
    let mut g = state(Player::Player1, [0, 1, 0, 0, 0, 2], 0, [1, 1, 1, 1, 1, 0], 0);
    g.make_move(1);
    assert_eq!(g.p1_state.holes, [1, 0, 0, 0, 0, 2]);
    assert_eq!(g.p1_state.store, 0);
    assert_eq!(g.p2_state.holes, [1, 1, 1, 1, 1, 0]);
    assert_eq!(g.cur_player, Player::Player2);
}

#[test]
fn capture_can_end_the_game() {
    let mut g = state(Player::Player1, [0, 1, 0, 0, 0, 0], 3, [0, 0, 0, 0, 0, 2], 5);
    g.make_move(1);
    assert_eq!(g.p1_state.store, 6);
    assert_eq!(g.p2_state.holes, [0; 6]);
    assert_eq!(g.result(), Some(1));
}

#[test]
fn full_lap_from_last_hole_captures() {
    let mut g = state(Player::Player1, [0, 0, 0, 0, 0, 13], 0, [0, 0, 0, 0, 0, 1], 0);
    g.make_move(5);
    // 13 stones: holes 4..0, store, opponent holes 5..0, then hole 5 again,
    // which was emptied by the move: it captures opponent hole 0
    assert_eq!(g.p1_state.holes, [1, 1, 1, 1, 1, 0]);
    assert_eq!(g.p1_state.store, 3);
    assert_eq!(g.p2_state.holes, [0, 1, 1, 1, 1, 2]);
    assert_eq!(g.p2_state.store, 0);
    assert_eq!(g.cur_player, Player::Player2);
}

#[test]
fn lap_ending_in_emptied_start_hole_captures() {
    let mut g = state(Player::Player1, [0, 0, 0, 13, 0, 0], 0, [0, 0, 4, 0, 0, 0], 0);
    g.make_move(3);
    // the 13th stone lands back in hole 3, emptied by the move; opposite is hole 2
    assert_eq!(g.p1_state.holes, [1, 1, 1, 0, 1, 1]);
    assert_eq!(g.p1_state.store, 1 + 5 + 1);
    assert_eq!(g.p2_state.holes, [1, 1, 0, 1, 1, 1]);
}

#[test]
fn terminal_scores_count_stones_left_on_own_side() {
    let g = state(Player::Player1, [0; 6], 20, [1, 2, 3, 0, 0, 0], 16);
    assert_eq!(g.result(), Some(20 - (16 + 6)));
    assert!(g.valid_moves().is_empty());
    assert_eq!(g.p2_state.score(), 22);
    assert_eq!(g.p1_state.score(), 20);
}

#[test]
fn terminal_when_other_side_empty() {
    let g = state(Player::Player1, [1, 0, 0, 0, 0, 2], 10, [0; 6], 12);
    assert_eq!(g.result(), Some(13 - 12));
    assert_eq!(g.valid_moves(), vec![0, 5]);
}

#[test]
fn not_over_with_stones_on_both_sides() {
    let g = state(Player::Player2, [0, 0, 1, 0, 0, 0], 0, [0, 3, 0, 0, 0, 0], 0);
    assert_eq!(g.result(), None);
    assert_eq!(g.valid_moves(), vec![1]);
}

#[test]
fn player_helpers() {
    assert_eq!(Player::Player1.other(), Player::Player2);
    assert_eq!(Player::Player2.other(), Player::Player1);
    assert_eq!(Player::Player1.name(), "Player 1");
    assert_eq!(Player::Player2.name(), "Player 2");
}

#[test]
fn player_state_helpers() {
    let p = PlayerState { holes: [0, 3, 0, 2, 0, 1], store: 7 };
    assert_eq!(p.stones_in_holes(), 6);
    assert_eq!(p.score(), 13);
    assert_eq!(p.non_empty_holes(), vec![1, 3, 5]);
    assert_eq!(PlayerState::default().holes, [4; 6]);
}

#[test]
fn player_and_player_mut_select_sides() {
    let mut g = GameState::default();
    assert_eq!(g.player(Player::Player2).store, 0);
    g.player_mut(Player::Player2).store = 9;
    assert_eq!(g.p2_state.store, 9);
    assert_eq!(g.player(Player::Player2).store, 9);
    assert_eq!(g.player(Player::Player1).store, 0);
}

#[test]
fn total_stones_are_kept_by_moves() {
    let mut g = GameState::default();
    let moves = [2usize, 5, 0, 4, 1];
    for &m in moves.iter() {
        let valid = g.valid_moves();
        if g.result().is_some() {
            break;
        }
        let hole = valid[m % valid.len()];
        g.make_move(hole);
        let total: u32 = g.p1_state.score() as u32 + g.p2_state.score() as u32;
        assert_eq!(total, 48);
    }
}
