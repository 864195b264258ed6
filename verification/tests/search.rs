use std::time::Duration;

use ultimate_ttt::ai::{minimax_expected_outcome, random_game, random_games};
use ultimate_ttt::codec::GameStateData;
use ultimate_ttt::game::{BoardResult, BoardState, GameState, Player, Position};
use ultimate_ttt::mcts::{mcts, Node};

fn random_move(game: &GameState) -> Position {
    let moves = game.get_possible_moves();
    let idx = rand::Rng::gen_range(&mut rand::thread_rng(), 0..moves.len());
    moves[idx]
}

#[test]
fn random_games_10000() {
    random_games(10000, 1, &GameState::new(Player::X));
}

#[test]
fn random_games_10000_with_10_threads() {
    random_games(10000, 10, &GameState::new(Player::X));
}

#[test]
fn random_game_plays_to_a_conclusion() {
    let fresh = GameState::new(Player::X);
    let outcome = random_game(&fresh);
    assert!(matches!(
        outcome,
        BoardResult::XWin | BoardResult::OWin | BoardResult::Tie
    ));
}

#[test]
fn random_games_counts_add_up() {
    let fresh = GameState::new(Player::X);
    let (x, o, t) = random_games(10, 1, &fresh);
    assert!(x >= 0 && o >= 0 && t >= 0);
    assert_eq!(x + o + t, 10);
    // With ten workers the remainder of the partition is dropped.
    let (x, o, t) = random_games(25, 10, &fresh);
    assert_eq!(x + o + t, 20);
}

#[test]
fn rollouts_from_a_finished_game_keep_its_outcome() {
    let mut game = GameState::new(Player::X);
    loop {
        let mv = random_move(&game);
        if let BoardState::Concluded(result) = game.place(mv.0, mv.1).unwrap() {
            let (x, o, t) = random_games(7, 1, &game);
            match result {
                BoardResult::XWin => assert_eq!((x, o, t), (7, 0, 0)),
                BoardResult::OWin => assert_eq!((x, o, t), (0, 7, 0)),
                BoardResult::Tie => assert_eq!((x, o, t), (0, 0, 7)),
            }
            return;
        }
    }
}

/// Rollout batches over one worker and over ten see the same game: the
/// outcome proportions of two large samples agree closely.
#[test]
fn worker_partition_does_not_bias_outcomes() {
    let fresh = GameState::new(Player::X);
    let a = random_games(10000, 1, &fresh);
    let b = random_games(10000, 10, &fresh);
    let ta = (a.0 + a.1 + a.2) as f64;
    let tb = (b.0 + b.1 + b.2) as f64;
    assert!((a.0 as f64 / ta - b.0 as f64 / tb).abs() < 0.05);
    assert!((a.1 as f64 / ta - b.1 as f64 / tb).abs() < 0.05);
    assert!((a.2 as f64 / ta - b.2 as f64 / tb).abs() < 0.05);
}

/// A position one move from a forced win for X: sub-boards (0,0) and (1,1)
/// are already his, and the constraint points into sub-board (2,2), where
/// the cell (2,2) completes both the local diagonal and the meta diagonal.
fn one_move_from_victory() -> GameState {
    let mut cells = vec![0u8; 81];
    let mut meta = vec![0u8; 9];
    for b in [0usize, 4] {
        cells[b * 9] = 1;
        cells[b * 9 + 1] = 1;
        cells[b * 9 + 2] = 1;
        cells[b * 9 + 3] = 2;
        cells[b * 9 + 4] = 2;
        meta[b] = 1;
    }
    cells[8 * 9] = 1;
    cells[8 * 9 + 4] = 1;
    cells[8 * 9 + 1] = 2;
    cells[8 * 9 + 2] = 2;
    let mut empties = Vec::new();
    for b in [1usize, 2, 3, 5, 6, 7] {
        for c in 0..9 {
            empties.push((b * 9 + c) as u8);
        }
    }
    for c in [3usize, 5, 6, 7, 8] {
        empties.push((8 * 9 + c) as u8);
    }
    let data = GameStateData {
        cells,
        meta,
        next: Some((2, 2)),
        state: 0,
        turn: 0,
        empties,
    };
    GameState::from_data(&data).expect("the crafted position decodes")
}

/// Minimax at depth one takes the immediately winning move.
#[test]
fn minimax_takes_the_immediate_win() {
    let game = one_move_from_victory();
    let (score, meta_move, mini_move) = minimax_expected_outcome(0, 1, &game, Player::X, 5);
    assert_eq!((meta_move, mini_move), ((2, 2), (2, 2)));
    assert_eq!(score, i32::MAX);
    let mut game = game;
    assert_eq!(
        game.place(meta_move, mini_move).unwrap(),
        BoardState::Concluded(BoardResult::XWin)
    );
}

#[test]
fn minimax_takes_the_immediate_win_at_depth_two() {
    let game = one_move_from_victory();
    let (score, meta_move, mini_move) = minimax_expected_outcome(0, 2, &game, Player::X, 5);
    assert_eq!((meta_move, mini_move), ((2, 2), (2, 2)));
    assert_eq!(score, i32::MAX);
}

/// Given an overwhelming thinking budget, the search settles on the
/// immediately winning move: its subtree evaluates to a full win every
/// visit, so it carries the greatest average score among the root children.
#[test]
fn mcts_settles_on_the_immediate_win() {
    let game = one_move_from_victory();
    let mut tree = Node::new();
    let mv = mcts(&game, 20, Duration::from_millis(1500), &mut tree);
    assert_eq!(mv, ((2, 2), (2, 2)));
    let mut game = game;
    assert_eq!(
        game.place(mv.0, mv.1).unwrap(),
        BoardState::Concluded(BoardResult::XWin)
    );
}

#[test]
fn tree_reuse_promotes_the_played_branch() {
    let game = GameState::new(Player::X);
    let mut tree = Node::new();
    let mv = mcts(&game, 2, Duration::from_millis(2), &mut tree);
    assert!(tree.has_children());
    let sub = tree.take_move(mv);
    assert!(sub.is_some());
    // A move the tree never recorded yields nothing, and the caller starts
    // a fresh tree for that turn.
    let other = Node::new();
    assert!(other.take_move(mv).is_none());
}

fn minimax_vs_minimax() -> BoardResult {
    let mut game = GameState::new(Player::X);
    loop {
        let (_, meta_move, mini_move) = minimax_expected_outcome(0, 1, &game, game.turn(), 5);
        match game.place(meta_move, mini_move).unwrap() {
            BoardState::Concluded(x) => return x,
            BoardState::Ongoing => (),
        }
    }
}

fn minimax1_vs_minimax2() -> BoardResult {
    let mut game = GameState::new(Player::X);
    loop {
        let (limit, count) = match game.turn() {
            Player::X => (1, 3),
            Player::O => (2, 1),
        };
        let (_, meta_move, mini_move) =
            minimax_expected_outcome(0, limit, &game, game.turn(), count);
        match game.place(meta_move, mini_move).unwrap() {
            BoardState::Concluded(x) => return x,
            BoardState::Ongoing => (),
        }
    }
}

fn random_vs_minimax() -> BoardResult {
    let mut game = GameState::new(Player::X);
    loop {
        let result;
        if let Player::X = game.turn() {
            let (_, meta_move, mini_move) = minimax_expected_outcome(0, 1, &game, game.turn(), 5);
            result = game.place(meta_move, mini_move).unwrap();
        } else {
            let mv = random_move(&game);
            result = game.place(mv.0, mv.1).unwrap();
        }
        match result {
            BoardState::Concluded(x) => return x,
            BoardState::Ongoing => (),
        }
    }
}

fn mcts_vs_minimax() -> BoardResult {
    let mut game = GameState::new(Player::X);
    let mut tree = Node::new();
    loop {
        let result;
        if let Player::X = game.turn() {
            let mv = mcts(&game, 10, Duration::from_millis(5), &mut tree);
            result = game.place(mv.0, mv.1).unwrap();
            tree = tree.take_move(mv).unwrap_or_else(Node::new);
        } else {
            let (_, meta_move, mini_move) = minimax_expected_outcome(0, 1, &game, game.turn(), 3);
            result = game.place(meta_move, mini_move).unwrap();
            tree = tree.take_move((meta_move, mini_move)).unwrap_or_else(Node::new);
        }
        match result {
            BoardState::Concluded(x) => return x,
            BoardState::Ongoing => (),
        }
    }
}

fn random_vs_mcts() -> BoardResult {
    let mut game = GameState::new(Player::X);
    let mut tree = Node::new();
    loop {
        let result;
        if let Player::X = game.turn() {
            let mv = mcts(&game, 10, Duration::from_millis(5), &mut tree);
            result = game.place(mv.0, mv.1).unwrap();
            tree = tree.take_move(mv).unwrap_or_else(Node::new);
        } else {
            let mv = random_move(&game);
            result = game.place(mv.0, mv.1).unwrap();
            tree = tree.take_move(mv).unwrap_or_else(Node::new);
        }
        match result {
            BoardState::Concluded(x) => return x,
            BoardState::Ongoing => (),
        }
    }
}

#[test]
fn random_vs_minimax_10() {
    let mut x_wins = 0;
    let mut o_wins = 0;
    let mut ties = 0;
    for _ in 0..10 {
        match random_vs_minimax() {
            BoardResult::XWin => x_wins += 1,
            BoardResult::OWin => o_wins += 1,
            BoardResult::Tie => ties += 1,
        }
        println!("X:{x_wins} O:{o_wins} Tie:{ties}")
    }
    println!("X:{x_wins} O:{o_wins} Tie:{ties}")
}

#[test]
fn random_vs_mcts_10() {
    let mut x_wins = 0;
    let mut o_wins = 0;
    let mut ties = 0;
    for _ in 0..10 {
        match random_vs_mcts() {
            BoardResult::XWin => x_wins += 1,
            BoardResult::OWin => o_wins += 1,
            BoardResult::Tie => ties += 1,
        }
        println!("X:{x_wins} O:{o_wins} Tie:{ties}")
    }
    println!("X:{x_wins} O:{o_wins} Tie:{ties}")
}

#[test]
fn minimax_vs_minimax_5() {
    let mut x_wins = 0;
    let mut o_wins = 0;
    let mut ties = 0;
    for _ in 0..5 {
        match minimax_vs_minimax() {
            BoardResult::XWin => x_wins += 1,
            BoardResult::OWin => o_wins += 1,
            BoardResult::Tie => ties += 1,
        }
        println!("X:{x_wins} O:{o_wins} Tie:{ties}")
    }
    println!("X:{x_wins} O:{o_wins} Tie:{ties}")
}

#[test]
fn minimax1_vs_minimax2_5() {
    let mut x_wins = 0;
    let mut o_wins = 0;
    let mut ties = 0;
    for _ in 0..5 {
        match minimax1_vs_minimax2() {
            BoardResult::XWin => x_wins += 1,
            BoardResult::OWin => o_wins += 1,
            BoardResult::Tie => ties += 1,
        }
        println!("X:{x_wins} O:{o_wins} Tie:{ties}")
    }
    println!("X:{x_wins} O:{o_wins} Tie:{ties}")
}

#[test]
fn mcts_vs_minimax_10() {
    let mut x_wins = 0;
    let mut o_wins = 0;
    let mut ties = 0;
    for _ in 0..10 {
        match mcts_vs_minimax() {
            BoardResult::XWin => x_wins += 1,
            BoardResult::OWin => o_wins += 1,
            BoardResult::Tie => ties += 1,
        }
        println!("X:{x_wins} O:{o_wins} Tie:{ties}")
    }
    println!("X:{x_wins} O:{o_wins} Tie:{ties}")
}
