//! The message a background search agent receives each turn: the board as
//! it stands, and the move just played, so the agent can promote the
//! matching branch of its tree before searching.
use vstd::prelude::*;

use crate::game::GameState;
use crate::game::Position;

verus! {

/// One turn's input to a reactor-style search agent.
pub struct MctsInput {
    pub game_state: GameState,
    pub last_move: Position,
}

} // verus!
