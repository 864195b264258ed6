//! Ultimate tic-tac-toe: a verified rules engine for the nested 3x3 game,
//! with the decision engines built on it - uniformly random rollouts, a
//! depth-limited minimax whose leaf values come from rollout sampling, and
//! a Monte Carlo tree search with UCB1 selection - and an exact structured
//! form for carrying a game across a transport boundary.
pub mod agent;
pub mod ai;
pub mod codec;
pub mod game;
pub mod mcts;
pub mod worker;
