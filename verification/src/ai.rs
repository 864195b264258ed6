//! Decision engines over the rules engine: uniformly random rollouts, a
//! batch runner for them, and a depth-limited minimax search whose leaf
//! values come from rollout sampling.
use vstd::prelude::*;

use crate::game::{
    constrained_moves, lemma_move_from_list, lemma_moves_nonempty, lemma_reaches_extend,
    lemma_step_shrinks_empties, move_ok, play_reaches, reaches, step, BoardResult, BoardState,
    GameState, GameView, Player, Position,
};

verus! {

/// Relies on rand's `Rng::gen_range` on the thread-local generator: it
/// returns a value drawn from the half-open range, so below `n`, and panics
/// only on an empty range, which the precondition rules out.  Nothing more
/// is promised: the result is random.
#[verifier::external_body]
fn choose_index(n: usize) -> (r: usize)
    requires
        n > 0,
    ensures
        r < n,
{
    rand::Rng::gen_range(&mut rand::thread_rng(), 0..n)
}

impl Player {
    /// A uniformly random side to start a game with.
    pub fn random() -> (r: Player)
        ensures
            r == Player::X || r == Player::O,
    {
        if choose_index(2) == 0 {
            Player::X
        } else {
            Player::O
        }
    }
}

/// Plays one game to its conclusion from `starting_board`, choosing a
/// uniformly random legal move at every step, and returns the final
/// outcome.  The outcome is one that some maximal legal play from the
/// start reaches; a game that has already concluded keeps its outcome.
pub fn random_game(starting_board: &GameState) -> (r: BoardResult)
    requires
        starting_board.inv(),
    ensures
        reaches(starting_board@, r),
        starting_board@.state == BoardState::Concluded(r) || starting_board@.state is Ongoing,
{
    let mut game = starting_board.clone();
    while matches!(game.state(), BoardState::Ongoing)
        invariant
            game.inv(),
            starting_board@.state is Ongoing || game@.state == starting_board@.state,
            forall|o: BoardResult| #[trigger] reaches(game@, o) ==> reaches(starting_board@, o),
        decreases game@.empties.len(),
    {
        let ghost v = game@;
        let moves = game.get_possible_moves();
        proof {
            lemma_moves_nonempty(v);
        }
        let idx = choose_index(moves.len());
        let mv = moves[idx];
        proof {
            assert(constrained_moves(v)[idx as int] == mv);
            assert(constrained_moves(v).contains(mv));
            lemma_move_from_list(v, mv);
        }
        let placed = game.place(mv.0, mv.1);
        proof {
            assert(placed is Ok);
            lemma_step_shrinks_empties(v, mv.0, mv.1);
            assert forall|o: BoardResult| #[trigger] reaches(game@, o) implies reaches(
                starting_board@,
                o,
            ) by {
                lemma_reaches_extend(v, mv, o);
            }
        }
    }
    match game.state() {
        BoardState::Concluded(x) => {
            proof {
                assert(play_reaches(game@, Seq::<Position>::empty(), x));
                assert(reaches(game@, x));
                assert(reaches(starting_board@, x));
            }
            x
        },
        BoardState::Ongoing => {
            proof {
                assert(false);
            }
            BoardResult::Tie
        },
    }
}

/// How many rollouts a batch of `total` games over `thread_count` workers
/// runs: each of the workers gets an equal share of `total`, and the
/// remainder is dropped; a single worker runs them all.
pub open spec fn batch_size(total: int, thread_count: int) -> int {
    if thread_count < 2 {
        total
    } else {
        (total / thread_count) * thread_count
    }
}

/// Runs a batch of independent random rollouts from `starting_board` and
/// tallies the outcomes as `(x_wins, o_wins, ties)`.  Each rollout plays on
/// its own clone of the board, so none observes another's moves; the
/// partition over `thread_count` workers only fixes how many games run.
pub fn random_games(total: u32, thread_count: u32, starting_board: &GameState) -> (r: (
    i32,
    i32,
    i32,
))
    requires
        starting_board.inv(),
        total <= 0x7fff_ffff,
    ensures
        r.0 >= 0 && r.1 >= 0 && r.2 >= 0,
        r.0 + r.1 + r.2 == batch_size(total as int, thread_count as int),
        r.0 > 0 ==> reaches(starting_board@, BoardResult::XWin),
        r.1 > 0 ==> reaches(starting_board@, BoardResult::OWin),
        r.2 > 0 ==> reaches(starting_board@, BoardResult::Tie),
        starting_board@.state == BoardState::Concluded(BoardResult::XWin) ==> r.1 == 0 && r.2 == 0,
        starting_board@.state == BoardState::Concluded(BoardResult::OWin) ==> r.0 == 0 && r.2 == 0,
        starting_board@.state == BoardState::Concluded(BoardResult::Tie) ==> r.0 == 0 && r.1 == 0,
{
    let games: u32 = if thread_count < 2 {
        total
    } else {
        proof {
            assert((total as int / thread_count as int) * thread_count as int <= total as int)
                by (nonlinear_arith)
                requires
                    thread_count >= 2,
                    total >= 0,
            ;
        }
        (total / thread_count) * thread_count
    };
    let mut x_wins: i32 = 0;
    let mut o_wins: i32 = 0;
    let mut ties: i32 = 0;
    let mut i: u32 = 0;
    while i < games
        invariant
            starting_board.inv(),
            i <= games,
            games <= total <= 0x7fff_ffff,
            x_wins >= 0 && o_wins >= 0 && ties >= 0,
            x_wins + o_wins + ties == i,
            x_wins > 0 ==> reaches(starting_board@, BoardResult::XWin),
            o_wins > 0 ==> reaches(starting_board@, BoardResult::OWin),
            ties > 0 ==> reaches(starting_board@, BoardResult::Tie),
            starting_board@.state == BoardState::Concluded(BoardResult::XWin) ==> o_wins == 0
                && ties == 0,
            starting_board@.state == BoardState::Concluded(BoardResult::OWin) ==> x_wins == 0
                && ties == 0,
            starting_board@.state == BoardState::Concluded(BoardResult::Tie) ==> x_wins == 0
                && o_wins == 0,
        decreases games - i,
    {
        match random_game(starting_board) {
            BoardResult::XWin => {
                x_wins = x_wins + 1;
            },
            BoardResult::OWin => {
                o_wins = o_wins + 1;
            },
            BoardResult::Tie => {
                ties = ties + 1;
            },
        }
        i = i + 1;
    }
    (x_wins, o_wins, ties)
}

/// Depth-limited minimax from `game` with `player` to move.  Explores every
/// legal move; a move that immediately concludes the game is returned at
/// once with a saturating score signed by the winner; at the depth limit a
/// position is valued by `random_count` rollouts as X-wins minus O-wins;
/// in between, the search recurses with the opponent to move.  X maximizes
/// and O minimizes, and among equal scores the first-found move is kept.
/// Returns the chosen score and move as `(score, meta, mini)`.
pub fn minimax_expected_outcome(
    depth: u32,
    limit: u32,
    game: &GameState,
    player: Player,
    random_count: u32,
) -> (r: (i32, (usize, usize), (usize, usize)))
    requires
        game.inv(),
        game@.state is Ongoing,
        game@.turn == player,
        depth < limit,
        random_count <= 0x7fff_fffe,
    ensures
        constrained_moves(game@).contains((r.1, r.2)),
        move_ok(game@, r.1, r.2),
        (exists|p: Position|
            #[trigger] constrained_moves(game@).contains(p) && step(game@, p.0, p.1).state
                is Concluded) ==> step(game@, r.1, r.2).state is Concluded && r.0 == step(
            game@,
            r.1,
            r.2,
        ).state->Concluded_0.sign() * i32::MAX,
        step(game@, r.1, r.2).state is Concluded ==> (exists|i: int|
            0 <= i < constrained_moves(game@).len() && (#[trigger] constrained_moves(game@)[i])
                == (r.1, r.2) && (forall|j: int|
                0 <= j < i ==> !(step(
                    game@,
                    (#[trigger] constrained_moves(game@)[j]).0,
                    constrained_moves(game@)[j].1,
                ).state is Concluded))),
    decreases limit - depth,
{
    let ghost v = game@;
    let moves = game.get_possible_moves();
    proof {
        lemma_moves_nonempty(v);
    }
    let mut best_score: i32 = 0;
    let mut best_meta: (usize, usize) = (0, 0);
    let mut best_mini: (usize, usize) = (0, 0);
    let mut have: bool = false;
    let mut k: usize = 0;
    while k < moves.len()
        invariant
            game.inv(),
            game@ == v,
            game@.state is Ongoing,
            game@.turn == player,
            depth < limit,
            random_count <= 0x7fff_fffe,
            moves@ == constrained_moves(v),
            k <= moves@.len(),
            moves@.len() > 0,
            k > 0 ==> have,
            have ==> constrained_moves(v).contains((best_meta, best_mini)),
            forall|j: int| 0 <= j < k ==> !(step(v, moves@[j].0, moves@[j].1).state is Concluded),
        decreases moves@.len() - k,
    {
        let mv = moves[k];
        proof {
            assert(constrained_moves(v).contains(mv));
            lemma_move_from_list(v, mv);
        }
        let mut branch = game.clone();
        let placed = branch.place(mv.0, mv.1);
        let outcome = match placed {
            Ok(s) => s,
            Err(_) => {
                proof {
                    assert(false);
                }
                return (0, mv.0, mv.1);
            },
        };
        if let BoardState::Concluded(x) = outcome {
            proof {
                assert(step(v, mv.0, mv.1).state == BoardState::Concluded(x));
                assert((mv.0, mv.1) == mv);
                assert(constrained_moves(v)[k as int] == (mv.0, mv.1));
            }
            return (x.sign_i32() * i32::MAX, mv.0, mv.1);
        }
        let score: i32;
        if depth + 1 < limit {
            let (s, _, _) = minimax_expected_outcome(
                depth + 1,
                limit,
                &branch,
                player.switch(),
                random_count,
            );
            score = s;
        } else {
            let result = random_games(random_count, 10, &branch);
            score = result.0 - result.1;
        }
        if !have || ((score > best_score) != matches!(player, Player::O)) {
            best_score = score;
            best_meta = mv.0;
            best_mini = mv.1;
            have = true;
            proof {
                assert((mv.0, mv.1) == mv);
            }
        }
        k = k + 1;
    }
    proof {
        assert((best_meta, best_mini) == (best_meta, best_mini));
        lemma_move_from_list(v, (best_meta, best_mini));
        assert forall|p: Position|
            !(#[trigger] constrained_moves(v).contains(p) && step(v, p.0, p.1).state
                is Concluded) by {
            if constrained_moves(v).contains(p) {
                let j = choose|j: int|
                    0 <= j < constrained_moves(v).len() && constrained_moves(v)[j] == p;
                assert((p.0, p.1) == p);
                assert(!(step(v, moves@[j].0, moves@[j].1).state is Concluded));
            }
        }
        assert(constrained_moves(v).contains((best_meta, best_mini)));
        assert(!(step(v, best_meta, best_mini).state is Concluded));
    }
    (best_score, best_meta, best_mini)
}

/// At the bottom of the search, minimax takes the win when one is there:
/// whenever every legal move that immediately concludes the game wins it
/// for the player to move - none merely fills the last sub-board for a tie
/// - and at least one such move exists, the move minimax returns wins the
/// game at once.  Together with the search's own contract this pins the
/// one-ply behaviour: the returned move concludes, and by hypothesis every
/// concluding move is a win.
pub proof fn lemma_minimax_takes_the_win(v: GameView, chosen: Position)
    requires
        crate::game::view_wf(v),
        v.state is Ongoing,
        forall|p: Position|
            #[trigger] constrained_moves(v).contains(p) && step(v, p.0, p.1).state is Concluded
                ==> step(v, p.0, p.1).state == BoardState::Concluded(v.turn.win()),
        constrained_moves(v).contains(chosen),
        step(v, chosen.0, chosen.1).state is Concluded,
    ensures
        step(v, chosen.0, chosen.1).state == BoardState::Concluded(v.turn.win()),
{
    assert((chosen.0, chosen.1) == chosen);
}

} // verus!
