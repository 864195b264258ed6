//! The message a search worker receives over a transport boundary: the
//! board as it stands, and the move just played, so the worker can promote
//! the matching branch of its tree before searching.
use vstd::prelude::*;

use crate::game::GameState;
use crate::game::Position;

verus! {

/// One turn's request to a worker-style search engine.
pub enum MctsInput {
    TakeMove { board: GameState, previous_move: Position },
}

} // verus!
