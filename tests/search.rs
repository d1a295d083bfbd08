use std::time::Duration;

use mancala_bot::game_state::{GameState, Player, PlayerState};
use mancala_bot::session::{Message, Reply, SearchSession};
use mancala_bot::mcts::{
    choose_option, compute_rollout_score, get_best_options, isqrt, MCTSContext, OptionStats,
};

fn state(cur_player: Player, one: [u8; 6], store_one: u8, two: [u8; 6], store_two: u8) -> GameState {
    GameState {
        cur_player,
        p1_state: PlayerState { holes: one, store: store_one },
        p2_state: PlayerState { holes: two, store: store_two },
    }
}

fn option(num_rollouts: u32, total_score: i64) -> OptionStats {
    OptionStats { num_rollouts, total_score }
}

#[test]
fn integer_square_roots() {
    assert_eq!(isqrt(0), 0);
    assert_eq!(isqrt(1), 1);
    assert_eq!(isqrt(15), 3);
    assert_eq!(isqrt(16), 4);
    assert_eq!(isqrt(4_000_000), 2000);
    assert_eq!(isqrt(u64::MAX), 4_294_967_295);
}

#[test]
fn expected_score_in_thousandths() {
    assert_eq!(option(0, 0).expected_score(), 0);
    assert_eq!(option(4, 10).expected_score(), 2500);
    assert_eq!(option(3, -10).expected_score(), -3333);
    assert_eq!(option(3, 10).expected_score(), 3333);
}

#[test]
fn puct_score_adds_exploration_bonus() {
    // sqrt(4) = 2: 100 * 2000 / (1 + 3) = 50000
    assert_eq!(option(3, -10).puct_score(4), -3333 + 50000);
    // an untried option under a parent with 9 rollouts: 100 * 3000 / 1
    assert_eq!(option(0, 0).puct_score(9), 300000);
    assert_eq!(option(0, 0).puct_score(0), 0);
}

#[test]
fn best_options_are_the_most_visited() {
    let options = [option(3, 0), option(5, 1), option(2, 0), option(5, -4)];
    assert_eq!(get_best_options(&options), vec![1, 3]);
    assert_eq!(get_best_options(&[option(0, 0)]), vec![0]);
}

#[test]
fn choose_option_picks_a_most_visited_option() {
    let options = [option(3, 0), option(7, 1), option(2, 0)];
    for _ in 0..50 {
        assert_eq!(choose_option(&options), 1);
    }
}

#[test]
fn choose_option_is_unbiased_among_ties() {
    let options = [option(4, 0), option(4, 0), option(4, 0)];
    let mut counts = [0u32; 3];
    for _ in 0..3000 {
        counts[choose_option(&options)] += 1;
    }
    for &c in counts.iter() {
        assert!(c > 800 && c < 1200, "counts {:?}", counts);
    }
}

#[test]
fn rollout_of_finished_game_is_its_score() {
    let g = state(Player::Player2, [0; 6], 30, [2, 0, 0, 0, 0, 0], 16);
    assert_eq!(compute_rollout_score(g), 30 - 18);
}

#[test]
fn rollout_score_is_a_final_score() {
    for _ in 0..20 {
        let score = compute_rollout_score(GameState::default());
        assert!(score >= -48 && score <= 48);
        assert_eq!(score % 2, 0);
    }
}

#[test]
fn samples_add_one_rollout_each_at_the_root() {
    let mut ctx = MCTSContext::new(1_000_000);
    let root = GameState::default();
    for n in 1..=60u32 {
        ctx.sample_move(root);
        let stats = ctx.stats_for(&root).unwrap();
        assert_eq!(stats.num_rollouts, n);
        let sum: u32 = stats.options.iter().map(|o| o.num_rollouts).sum();
        assert_eq!(sum, n);
        assert_eq!(stats.options.len(), 6);
    }
}

#[test]
fn first_sample_creates_one_entry() {
    let mut ctx = MCTSContext::new(1_000_000);
    let root = GameState::default();
    assert_eq!(ctx.cache_size(), 0);
    ctx.sample_move(root);
    assert_eq!(ctx.cache_size(), 1);
    let stats = ctx.stats_for(&root).unwrap();
    let tried: Vec<&OptionStats> = stats.options.iter().filter(|o| o.num_rollouts > 0).collect();
    assert_eq!(tried.len(), 1);
    assert_eq!(tried[0].num_rollouts, 1);
}

#[test]
fn forced_positions_are_never_stored() {
    let mut ctx = MCTSContext::new(1_000_000);
    // Player 1 has a single legal move
    let forced = state(Player::Player1, [0, 0, 2, 0, 0, 0], 0, [1, 1, 1, 1, 1, 1], 0);
    assert_eq!(forced.valid_moves().len(), 1);
    for _ in 0..30 {
        ctx.sample_move(forced);
    }
    assert!(ctx.stats_for(&forced).is_none());
}

#[test]
fn sampling_a_finished_game_leaves_the_table_alone() {
    let mut ctx = MCTSContext::new(1_000_000);
    let done = state(Player::Player1, [0; 6], 20, [1, 0, 0, 0, 0, 0], 27);
    assert_eq!(ctx.sample_move(done), 20 - 28);
    assert_eq!(ctx.cache_size(), 0);
    assert_eq!(ctx.ponder(&done, Duration::from_millis(5)), 0);
    assert_eq!(ctx.cache_size(), 0);
}

#[test]
fn ponder_samples_at_least_once_and_advances_the_ply() {
    let mut ctx = MCTSContext::new(1_000_000);
    let root = GameState::default();
    assert_eq!(ctx.current_ply(), 0);
    let n = ctx.ponder(&root, Duration::from_millis(0));
    assert!(n >= 1);
    assert_eq!(ctx.current_ply(), 1);
    assert_eq!(ctx.stats_for(&root).unwrap().num_rollouts as usize, n);
    assert_eq!(ctx.stats_for(&root).unwrap().last_visit_ply, 1);
}

#[test]
fn clearing_the_cache_starts_afresh() {
    let mut ctx = MCTSContext::new(1_000_000);
    let root = GameState::default();
    ctx.ponder(&root, Duration::from_millis(20));
    ctx.ponder(&root, Duration::from_millis(20));
    assert!(ctx.cache_size() > 1);
    ctx.clear_cache();
    assert_eq!(ctx.cache_size(), 0);
    assert_eq!(ctx.current_ply(), 0);
    ctx.sample_move(root);
    assert_eq!(ctx.cache_size(), 1);
}

#[test]
fn pruning_keeps_the_most_recent_entry() {
    let mut ctx = MCTSContext::new(1_000_000);
    let root = GameState::default();
    ctx.ponder(&root, Duration::from_millis(20));
    let mut next = root;
    next.make_move(0);
    ctx.ponder(&next, Duration::from_millis(20));
    let before = ctx.cache_size();
    assert!(before > 10);
    ctx.cache_size_limit = 1;
    ctx.prune_explored_states();
    // at most the stalest seventh goes; when the stalest ply holds more
    // than that, nothing does, and the table stays above the limit
    let after = ctx.cache_size();
    assert!(after <= before);
    assert!(after >= before - before / 7);
    assert!(after > ctx.cache_size_limit);
    assert_eq!(ctx.stats_for(&next).unwrap().last_visit_ply, 2);
}

#[test]
fn pruning_under_the_limit_changes_nothing() {
    let mut ctx = MCTSContext::new(1_000_000);
    let root = GameState::default();
    ctx.ponder(&root, Duration::from_millis(10));
    let before = ctx.cache_size();
    ctx.prune_explored_states();
    assert_eq!(ctx.cache_size(), before);
}

#[test]
fn best_move_with_one_legal_move_needs_no_statistics() {
    let ctx = MCTSContext::new(1_000_000);
    let forced = state(Player::Player1, [0, 0, 2, 0, 0, 0], 0, [1, 1, 1, 1, 1, 1], 0);
    assert_eq!(ctx.best_move(&forced), 2);
    assert_eq!(ctx.cache_size(), 0);
}

#[test]
fn best_move_is_a_most_visited_option() {
    let mut ctx = MCTSContext::new(1_000_000);
    let root = GameState::default();
    ctx.ponder(&root, Duration::from_millis(30));
    let stats = ctx.stats_for(&root).unwrap();
    let best = get_best_options(stats.options.as_slice());
    let moves = root.valid_moves();
    let chosen = ctx.best_move(&root);
    assert!(best.iter().any(|&i| moves[i] == chosen));
}

#[test]
fn session_handles_messages() {
    let mut session = SearchSession::new(1_000);
    assert_eq!(session.work(Duration::from_millis(1), 1_000), None);
    assert!(session.snapshot().is_none());

    let root = GameState::default();
    assert_eq!(session.handle(Message::SetActiveState(root)), Reply::Publish);
    assert_eq!(session.active(), Some(root));
    let n = session.work(Duration::from_millis(5), 1_000).unwrap();
    assert!(n >= 1);
    let (g, stats) = session.snapshot().unwrap();
    assert_eq!(g, root);
    assert_eq!(stats.num_rollouts as usize, n);

    assert_eq!(session.handle(Message::ClearCache), Reply::Continue);
    assert_eq!(session.cache_size(), 0);
    assert_eq!(session.active(), Some(root));

    let crowded = state(Player::Player1, [100, 0, 0, 0, 0, 0], 0, [100, 0, 0, 0, 0, 0], 0);
    assert_eq!(session.handle(Message::SetActiveState(crowded)), Reply::Continue);
    assert_eq!(session.active(), Some(root));

    let done = state(Player::Player1, [0; 6], 20, [1, 0, 0, 0, 0, 0], 27);
    assert_eq!(session.handle(Message::SetActiveState(done)), Reply::Publish);
    assert_eq!(session.work(Duration::from_millis(1), 1_000), None);

    assert_eq!(session.handle(Message::Stop), Reply::Exit);
}

#[test]
fn well_formedness_bounds_the_stone_count() {
    assert!(GameState::default().is_well_formed());
    let crowded = state(Player::Player1, [100, 0, 0, 0, 0, 0], 0, [28, 0, 0, 0, 0, 0], 0);
    assert!(!crowded.is_well_formed());
    let full = state(Player::Player1, [100, 0, 0, 0, 0, 0], 0, [27, 0, 0, 0, 0, 0], 0);
    assert!(full.is_well_formed());
}

#[test]
fn each_sample_adds_at_most_one_entry_and_keeps_the_rest() {
    let mut ctx = MCTSContext::new(1_000_000);
    let root = GameState::default();
    let mut seen: Vec<(GameState, u32)> = Vec::new();
    for _ in 0..40 {
        let before = ctx.cache_size();
        ctx.sample_move(root);
        assert!(ctx.cache_size() <= before + 1);
        for (g, n) in seen.iter() {
            assert!(ctx.stats_for(g).unwrap().num_rollouts >= *n);
        }
        seen.push((root, ctx.stats_for(&root).unwrap().num_rollouts));
    }
}

#[test]
fn ponder_within_the_limit_adds_its_samples_at_the_root() {
    let mut ctx = MCTSContext::new(1_000_000);
    let root = GameState::default();
    let first = ctx.ponder(&root, Duration::from_millis(5));
    let size = ctx.cache_size();
    let second = ctx.ponder(&root, Duration::from_millis(5));
    assert!(ctx.cache_size() >= size);
    let stats = ctx.stats_for(&root).unwrap();
    assert_eq!(stats.num_rollouts as usize, first + second);
    assert_eq!(stats.last_visit_ply, ctx.current_ply());
    assert_eq!(ctx.current_ply(), 2);
}

#[test]
fn option_consistency() {
    assert!(option(2, 254).is_consistent());
    assert!(option(2, -254).is_consistent());
    assert!(!option(2, 255).is_consistent());
    assert!(!option(0, 1).is_consistent());
}
