pub mod bindings;
pub mod game_state;
pub mod mcts;
pub mod session;
