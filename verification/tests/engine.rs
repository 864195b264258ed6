use ultimate_ttt::codec::GameStateData;
use ultimate_ttt::game::{
    BoardResult, BoardSpace, BoardState, Game, GameState, Player, PlayerType, Position,
};

fn place_ok(game: &mut GameState, meta: (usize, usize), mini: (usize, usize)) -> BoardState {
    game.place(meta, mini).expect("move drawn from the rules should be accepted")
}

#[test]
fn fresh_game_has_81_moves_everywhere() {
    let game = GameState::new(Player::X);
    let moves = game.get_possible_moves();
    assert_eq!(moves.len(), 81);
    assert!(matches!(game.state(), BoardState::Ongoing));
    assert!(game.next_board().is_none());
}

#[test]
fn session_starts_with_chosen_seats() {
    let game = Game::new(Player::O, PlayerType::Local, PlayerType::Mcts);
    assert!(matches!(game.state.turn, Player::O));
    assert!(matches!(game.x, PlayerType::Local));
    assert!(matches!(game.o, PlayerType::Mcts));
}

#[test]
fn occupied_cell_is_refused() {
    let mut game = GameState::new(Player::X);
    place_ok(&mut game, (0, 0), (0, 0));
    // O is forced into sub-board (0,0); the cell X took is refused.
    assert!(game.place((0, 0), (0, 0)).is_err());
    // The refused attempt changed nothing: the same legal move still works.
    place_ok(&mut game, (0, 0), (1, 0));
}

#[test]
fn move_outside_required_board_is_refused() {
    let mut game = GameState::new(Player::X);
    place_ok(&mut game, (0, 0), (1, 1));
    // O must play in sub-board (1,1) now.
    assert!(game.place((2, 2), (0, 0)).is_err());
    place_ok(&mut game, (1, 1), (2, 2));
}

#[test]
fn next_required_board_follows_mini_coordinate() {
    let mut game = GameState::new(Player::X);
    place_ok(&mut game, (0, 0), (1, 2));
    assert_eq!(game.next_board(), Some((1, 2)));
    let moves = game.get_possible_moves();
    assert_eq!(moves.len(), 9);
    assert!(moves.iter().all(|p| p.0 == (1, 2)));
}

/// X claims the (0,0)/(1,1)/(2,2) diagonal of sub-board (0,0), with O
/// interleaving off the diagonal; the sub-board concludes as an X win
/// exactly on the third placement.
#[test]
fn sub_board_win_on_third_diagonal_placement() {
    let mut game = GameState::new(Player::X);
    place_ok(&mut game, (0, 0), (1, 1));
    place_ok(&mut game, (1, 1), (0, 0));
    place_ok(&mut game, (0, 0), (2, 2));
    assert!(matches!(game.meta_at((0, 0)), BoardState::Ongoing));
    place_ok(&mut game, (2, 2), (0, 0));
    assert!(matches!(game.meta_at((0, 0)), BoardState::Ongoing));
    let result = place_ok(&mut game, (0, 0), (0, 0));
    assert_eq!(game.meta_at((0, 0)), BoardState::Concluded(BoardResult::XWin));
    // The whole game is still running: one sub-board is not a meta line.
    assert_eq!(result, BoardState::Ongoing);
    assert_eq!(game.cell_at((0, 0), (1, 1)), BoardSpace::Taken(Player::X));
}

/// A concluded sub-board is permanently immutable, and a constraint aimed
/// at it collapses to "any ongoing sub-board".
#[test]
fn concluded_sub_board_rejects_moves_and_frees_the_constraint() {
    let mut game = GameState::new(Player::X);
    place_ok(&mut game, (0, 0), (1, 1));
    place_ok(&mut game, (1, 1), (0, 0));
    place_ok(&mut game, (0, 0), (2, 2));
    place_ok(&mut game, (2, 2), (0, 0));
    // X's mini coordinate names the very board that just concluded, so O
    // may play anywhere that is still ongoing.
    place_ok(&mut game, (0, 0), (0, 0));
    assert_eq!(game.next_board(), None);
    let moves = game.get_possible_moves();
    assert!(moves.iter().all(|p| p.0 != (0, 0)));
    assert!(moves.iter().any(|p| p.0 == (2, 1)));
    // Writing into the concluded sub-board is refused outright.
    assert!(game.place((0, 0), (0, 1)).is_err());
}

#[test]
fn icons_show_marks_and_big_letters() {
    let mut game = GameState::new(Player::X);
    assert_eq!(game.get_icon((0, 0), (0, 0)), " ");
    place_ok(&mut game, (0, 0), (1, 1));
    assert_eq!(game.get_icon((0, 0), (1, 1)), "X");
    place_ok(&mut game, (1, 1), (0, 0));
    assert_eq!(game.get_icon((1, 1), (0, 0)), "O");
    place_ok(&mut game, (0, 0), (2, 2));
    place_ok(&mut game, (2, 2), (0, 0));
    place_ok(&mut game, (0, 0), (0, 0));
    // Sub-board (0,0) is won by X: its cells show the big X.
    assert_eq!(game.get_icon((0, 0), (1, 1)), "X");
    assert_eq!(game.get_icon((0, 0), (0, 0)), "\\");
    assert_eq!(game.get_icon((0, 0), (2, 0)), "/");
    assert_eq!(game.get_icon((0, 0), (1, 0)), " ");
}

#[test]
fn player_switch_alternates() {
    assert!(matches!(Player::X.switch(), Player::O));
    assert!(matches!(Player::O.switch(), Player::X));
    let mut game = GameState::new(Player::X);
    place_ok(&mut game, (1, 1), (1, 1));
    assert!(matches!(game.turn(), Player::O));
}

#[test]
fn random_player_is_a_side() {
    for _ in 0..32 {
        let p = Player::random();
        assert!(matches!(p, Player::X | Player::O));
    }
}

#[test]
fn check_wins_reads_lines_through_the_cell() {
    let mut game = GameState::new(Player::X);
    place_ok(&mut game, (0, 0), (1, 1));
    place_ok(&mut game, (1, 1), (0, 0));
    place_ok(&mut game, (0, 0), (2, 2));
    place_ok(&mut game, (2, 2), (0, 0));
    place_ok(&mut game, (0, 0), (0, 0));
    // The game-level check from the concluded sub-board: no meta line yet.
    assert_eq!(game.check_wins((0, 0)), BoardState::Ongoing);
}

fn data_of(game: &GameState) -> GameStateData {
    game.to_data()
}

fn assert_same_data(a: &GameStateData, b: &GameStateData) {
    assert_eq!(a.cells, b.cells);
    assert_eq!(a.meta, b.meta);
    assert_eq!(a.next, b.next);
    assert_eq!(a.state, b.state);
    assert_eq!(a.turn, b.turn);
    assert_eq!(a.empties, b.empties);
}

/// Round trip: a mid-game state survives the structured form unchanged,
/// with identical legal moves and identical outcomes for the same moves.
#[test]
fn codec_round_trip_preserves_moves_and_apply() {
    let mut game = GameState::new(Player::X);
    place_ok(&mut game, (0, 0), (1, 1));
    place_ok(&mut game, (1, 1), (2, 0));
    place_ok(&mut game, (2, 0), (0, 2));
    let data = data_of(&game);
    let mut back = GameState::from_data(&data).expect("an encoded state decodes");
    assert_same_data(&data, &data_of(&back));
    let moves_a = game.get_possible_moves();
    let moves_b = back.get_possible_moves();
    assert_eq!(moves_a, moves_b);
    let mv: Position = moves_a[0];
    let ra = game.place(mv.0, mv.1);
    let rb = back.place(mv.0, mv.1);
    assert_eq!(ra.is_ok(), rb.is_ok());
    assert_same_data(&data_of(&game), &data_of(&back));
    // A move the original refuses, the decoded state refuses too.
    assert_eq!(game.place(mv.0, mv.1).is_err(), back.place(mv.0, mv.1).is_err());
}

#[test]
fn codec_rejects_out_of_range_codes() {
    let game = GameState::new(Player::X);
    let mut data = game.to_data();
    data.cells[5] = 7;
    assert!(GameState::from_data(&data).is_none());
    let mut data = game.to_data();
    data.meta[0] = 9;
    assert!(GameState::from_data(&data).is_none());
    let mut data = game.to_data();
    data.turn = 2;
    assert!(GameState::from_data(&data).is_none());
    let mut data = game.to_data();
    data.empties.push(81);
    assert!(GameState::from_data(&data).is_none());
    let mut data = game.to_data();
    data.next = Some((3, 0));
    assert!(GameState::from_data(&data).is_none());
}

#[test]
fn well_formedness_is_decidable_at_runtime() {
    let mut game = GameState::new(Player::X);
    assert!(game.is_well_formed());
    place_ok(&mut game, (0, 0), (1, 1));
    place_ok(&mut game, (1, 1), (2, 0));
    assert!(game.is_well_formed());
    let decoded = GameState::from_data(&game.to_data()).expect("an encoded state decodes");
    assert!(decoded.is_well_formed());
    // In-range codes can still describe an impossible state: a sub-board
    // recorded as won while all its cells are empty.
    let mut data = GameState::new(Player::X).to_data();
    data.meta[0] = 1;
    let bogus = GameState::from_data(&data).expect("the codes are in range");
    assert!(!bogus.is_well_formed());
}

#[test]
fn codec_round_trip_of_fresh_game() {
    let game = GameState::new(Player::O);
    let back = GameState::from_data(&game.to_data()).expect("an encoded state decodes");
    assert_eq!(back.get_possible_moves().len(), 81);
    assert!(matches!(back.turn(), Player::O));
}
