//! A transport-neutral structured form of a game state, field for field:
//! plain integers and vectors that any transport can carry across a worker
//! or process boundary.  Encoding and decoding are exact inverses on
//! well-formed states, so a state that crosses the boundary plays on with
//! the same legal moves and the same outcomes.
use vstd::prelude::*;

use crate::game::{
    constrained_moves, coord_of, lemma_sidx_coord_roundtrip, sidx, view_wf, Board, BoardResult,
    BoardSpace, BoardState, GameState, GameView, Player, Position,
};

verus! {

/// The structured form of a game state: plain integers and vectors only.
/// Cells and sub-boards are sub-board-major: the cell `c` of the sub-board
/// `b` sits at index `b * 9 + c`, with the flat index of a `(column, row)`
/// pair being `row * 3 + column`.
pub struct GameStateData {
    /// The 81 cells: 0 empty, 1 taken by X, 2 taken by O.
    pub cells: Vec<u8>,
    /// The 9 sub-board outcomes: 0 ongoing, 1 X won, 2 O won, 3 tied.
    pub meta: Vec<u8>,
    /// The sub-board the next move is constrained to, as `(column, row)`.
    pub next: Option<(u8, u8)>,
    /// The overall outcome: 0 ongoing, 1 X won, 2 O won, 3 tied.
    pub state: u8,
    /// Whose turn it is: 0 for X, 1 for O.
    pub turn: u8,
    /// The playable empty cells, each as `sub-board index * 9 + cell index`.
    pub empties: Vec<u8>,
}

// ---------------------------------------------------------------------------
// The encoding, as a specification
// ---------------------------------------------------------------------------

pub open spec fn space_code(s: BoardSpace) -> u8 {
    match s {
        BoardSpace::Empty => 0,
        BoardSpace::Taken(Player::X) => 1,
        BoardSpace::Taken(Player::O) => 2,
    }
}

pub open spec fn space_of_code(c: u8) -> BoardSpace {
    if c == 1 {
        BoardSpace::Taken(Player::X)
    } else if c == 2 {
        BoardSpace::Taken(Player::O)
    } else {
        BoardSpace::Empty
    }
}

pub open spec fn state_code(s: BoardState) -> u8 {
    match s {
        BoardState::Ongoing => 0,
        BoardState::Concluded(BoardResult::XWin) => 1,
        BoardState::Concluded(BoardResult::OWin) => 2,
        BoardState::Concluded(BoardResult::Tie) => 3,
    }
}

pub open spec fn state_of_code(c: u8) -> BoardState {
    if c == 1 {
        BoardState::Concluded(BoardResult::XWin)
    } else if c == 2 {
        BoardState::Concluded(BoardResult::OWin)
    } else if c == 3 {
        BoardState::Concluded(BoardResult::Tie)
    } else {
        BoardState::Ongoing
    }
}

pub open spec fn turn_code(p: Player) -> u8 {
    match p {
        Player::X => 0,
        Player::O => 1,
    }
}

pub open spec fn turn_of_code(c: u8) -> Player {
    if c == 1 {
        Player::O
    } else {
        Player::X
    }
}

pub open spec fn pos_code(p: Position) -> u8 {
    (sidx(p.0) * 9 + sidx(p.1)) as u8
}

pub open spec fn pos_of_code(e: u8) -> Position {
    (coord_of(e as int / 9), coord_of(e as int % 9))
}

/// What encoding a state's mathematical value yields, field by field.
pub open spec fn enc_cells(v: GameView) -> Seq<u8> {
    Seq::new(81, |k: int| space_code(v.boards[k / 9][k % 9]))
}

pub open spec fn enc_meta(v: GameView) -> Seq<u8> {
    Seq::new(9, |b: int| state_code(v.meta[b]))
}

pub open spec fn enc_next(v: GameView) -> Option<(u8, u8)> {
    match v.next {
        None => None,
        Some(m) => Some((m.0 as u8, m.1 as u8)),
    }
}

pub open spec fn enc_empties(v: GameView) -> Seq<u8> {
    v.empties.map_values(|p: Position| pos_code(p))
}

/// What the structured form is accepted to hold: the right lengths, and
/// every code within its range.
pub open spec fn data_ok(
    cells: Seq<u8>,
    meta: Seq<u8>,
    next: Option<(u8, u8)>,
    state: u8,
    turn: u8,
    empties: Seq<u8>,
) -> bool {
    &&& cells.len() == 81
    &&& forall|k: int| 0 <= k < 81 ==> #[trigger] cells[k] <= 2
    &&& meta.len() == 9
    &&& forall|b: int| 0 <= b < 9 ==> #[trigger] meta[b] <= 3
    &&& match next {
        Some(m) => m.0 < 3 && m.1 < 3,
        None => true,
    }
    &&& state <= 3
    &&& turn <= 1
    &&& forall|i: int| 0 <= i < empties.len() ==> #[trigger] empties[i] < 81
}

/// The mathematical value a structured form decodes to.
pub open spec fn decoded_view(
    cells: Seq<u8>,
    meta: Seq<u8>,
    next: Option<(u8, u8)>,
    state: u8,
    turn: u8,
    empties: Seq<u8>,
) -> GameView {
    GameView {
        boards: Seq::new(9, |b: int| Seq::new(9, |c: int| space_of_code(cells[b * 9 + c]))),
        meta: Seq::new(9, |b: int| state_of_code(meta[b])),
        next: match next {
            None => None,
            Some(m) => Some((m.0 as usize, m.1 as usize)),
        },
        state: state_of_code(state),
        turn: turn_of_code(turn),
        empties: empties.map_values(|e: u8| pos_of_code(e)),
    }
}

/// Pointwise reading of a decoded value's fields.
pub proof fn lemma_decoded_view_index(
    cells: Seq<u8>,
    meta: Seq<u8>,
    next: Option<(u8, u8)>,
    state: u8,
    turn: u8,
    empties: Seq<u8>,
)
    ensures
        ({
            let w = decoded_view(cells, meta, next, state, turn, empties);
            &&& w.boards.len() == 9
            &&& forall|b: int| 0 <= b < 9 ==> (#[trigger] w.boards[b]).len() == 9
            &&& forall|b: int, c: int|
                0 <= b < 9 && 0 <= c < 9 ==> #[trigger] w.boards[b][c] == space_of_code(
                    cells[b * 9 + c],
                )
            &&& w.meta.len() == 9
            &&& forall|b: int| 0 <= b < 9 ==> #[trigger] w.meta[b] == state_of_code(meta[b])
            &&& w.empties.len() == empties.len()
            &&& forall|i: int|
                0 <= i < empties.len() ==> #[trigger] w.empties[i] == pos_of_code(empties[i])
        }),
{
    let w = decoded_view(cells, meta, next, state, turn, empties);
    let boards = Seq::new(9, |b: int| Seq::new(9, |c: int| space_of_code(cells[b * 9 + c])));
    assert forall|b: int, c: int| 0 <= b < 9 && 0 <= c < 9 implies #[trigger] w.boards[b][c]
        == space_of_code(cells[b * 9 + c]) by {
        assert(boards[b] == Seq::new(9, |c2: int| space_of_code(cells[b * 9 + c2])));
        assert(Seq::new(9, |c2: int| space_of_code(cells[b * 9 + c2]))[c] == space_of_code(
            cells[b * 9 + c],
        ));
    }
}

// ---------------------------------------------------------------------------
// The round trip
// ---------------------------------------------------------------------------

/// Encoding a well-formed state and decoding the result gives back exactly
/// the state's mathematical value.  In particular the decoded state allows
/// the same moves as the original and every move plays out to the same
/// state, so a game can cross a transport boundary and continue unchanged.
#[verifier::rlimit(50)]
pub proof fn lemma_codec_round_trip(v: GameView)
    requires
        view_wf(v),
    ensures
        data_ok(
            enc_cells(v),
            enc_meta(v),
            enc_next(v),
            state_code(v.state),
            turn_code(v.turn),
            enc_empties(v),
        ),
        decoded_view(
            enc_cells(v),
            enc_meta(v),
            enc_next(v),
            state_code(v.state),
            turn_code(v.turn),
            enc_empties(v),
        ) == v,
        constrained_moves(
            decoded_view(
                enc_cells(v),
                enc_meta(v),
                enc_next(v),
                state_code(v.state),
                turn_code(v.turn),
                enc_empties(v),
            ),
        ) == constrained_moves(v),
{
    let w = decoded_view(
        enc_cells(v),
        enc_meta(v),
        enc_next(v),
        state_code(v.state),
        turn_code(v.turn),
        enc_empties(v),
    );
    assert forall|i: int| 0 <= i < enc_empties(v).len() implies #[trigger] enc_empties(v)[i]
        < 81 by {
        assert(v.empties.contains(v.empties[i]));
        lemma_sidx_coord_roundtrip(v.empties[i].0);
        lemma_sidx_coord_roundtrip(v.empties[i].1);
    }
    assert forall|b: int| 0 <= b < 9 implies #[trigger] w.boards[b] =~= v.boards[b] by {
        assert forall|c: int| 0 <= c < 9 implies #[trigger] w.boards[b][c] == v.boards[b][c] by {
            let k = b * 9 + c;
            assert(k / 9 == b && k % 9 == c) by (nonlinear_arith)
                requires
                    0 <= b < 9,
                    0 <= c < 9,
                    k == b * 9 + c,
            ;
            assert(enc_cells(v)[k] == space_code(v.boards[b][c]));
        }
    }
    assert(w.boards =~~= v.boards);
    assert(w.meta =~= v.meta);
    assert(w.next == v.next);
    assert forall|i: int| 0 <= i < v.empties.len() implies #[trigger] w.empties[i]
        == v.empties[i] by {
        let p = v.empties[i];
        assert(v.empties.contains(p));
        lemma_sidx_coord_roundtrip(p.0);
        lemma_sidx_coord_roundtrip(p.1);
        let e = pos_code(p);
        assert(e as int / 9 == sidx(p.0) && e as int % 9 == sidx(p.1)) by (nonlinear_arith)
            requires
                0 <= sidx(p.0) < 9,
                0 <= sidx(p.1) < 9,
                e as int == sidx(p.0) * 9 + sidx(p.1),
        ;
    }
    assert(w.empties =~= v.empties);
    assert(w =~~= v);
}

// ---------------------------------------------------------------------------
// The executable codec
// ---------------------------------------------------------------------------

impl GameState {
    /// The state's structured form, ready for any transport.
    pub fn to_data(&self) -> (d: GameStateData)
        requires
            self.inv(),
        ensures
            d.cells@ == enc_cells(self@),
            d.meta@ == enc_meta(self@),
            d.next == enc_next(self@),
            d.state == state_code(self@.state),
            d.turn == turn_code(self@.turn),
            d.empties@ == enc_empties(self@),
    {
        let ghost v = self@;
        let mut cells: Vec<u8> = Vec::new();
        let mut b: usize = 0;
        while b < 9
            invariant
                self.inv(),
                self@ == v,
                b <= 9,
                cells@.len() == b * 9,
                forall|k: int| 0 <= k < b * 9 ==> #[trigger] cells@[k] == enc_cells(v)[k],
            decreases 9 - b,
        {
            let mut c: usize = 0;
            while c < 9
                invariant
                    self.inv(),
                    self@ == v,
                    b < 9,
                    c <= 9,
                    cells@.len() == b * 9 + c,
                    forall|k: int| 0 <= k < b * 9 + c ==> #[trigger] cells@[k] == enc_cells(v)[k],
                decreases 9 - c,
            {
                proof {
                    assert(sidx(((b % 3) as usize, (b / 3) as usize)) == b as int
                        && sidx(((c % 3) as usize, (c / 3) as usize)) == c as int)
                        by (nonlinear_arith)
                        requires
                            0 <= b < 9,
                            0 <= c < 9,
                    ;
                }
                let code: u8 = match self.cell_at((b % 3, b / 3), (c % 3, c / 3)) {
                    BoardSpace::Empty => 0,
                    BoardSpace::Taken(Player::X) => 1,
                    BoardSpace::Taken(Player::O) => 2,
                };
                proof {
                    let k = b * 9 + c;
                    assert(k / 9 == b as int && k % 9 == c as int) by (nonlinear_arith)
                        requires
                            0 <= b < 9,
                            0 <= c < 9,
                            k == b * 9 + c,
                    ;
                    assert(code == enc_cells(v)[k as int]);
                }
                cells.push(code);
                c = c + 1;
            }
            b = b + 1;
        }
        proof {
            assert(cells@ =~= enc_cells(v));
        }
        let mut meta: Vec<u8> = Vec::new();
        let mut b: usize = 0;
        while b < 9
            invariant
                self.inv(),
                self@ == v,
                b <= 9,
                meta@.len() == b,
                forall|k: int| 0 <= k < b ==> #[trigger] meta@[k] == enc_meta(v)[k],
            decreases 9 - b,
        {
            proof {
                assert(sidx(((b % 3) as usize, (b / 3) as usize)) == b as int)
                    by (nonlinear_arith)
                    requires
                        0 <= b < 9,
                ;
            }
            let code: u8 = match self.meta_at((b % 3, b / 3)) {
                BoardState::Ongoing => 0,
                BoardState::Concluded(BoardResult::XWin) => 1,
                BoardState::Concluded(BoardResult::OWin) => 2,
                BoardState::Concluded(BoardResult::Tie) => 3,
            };
            meta.push(code);
            b = b + 1;
        }
        proof {
            assert(meta@ =~= enc_meta(v));
        }
        let next: Option<(u8, u8)> = match self.next_board() {
            None => None,
            Some(m) => Some((m.0 as u8, m.1 as u8)),
        };
        let state: u8 = match self.state() {
            BoardState::Ongoing => 0,
            BoardState::Concluded(BoardResult::XWin) => 1,
            BoardState::Concluded(BoardResult::OWin) => 2,
            BoardState::Concluded(BoardResult::Tie) => 3,
        };
        let turn: u8 = match self.turn() {
            Player::X => 0,
            Player::O => 1,
        };
        let src = self.empty_positions();
        let mut empties: Vec<u8> = Vec::new();
        let mut i: usize = 0;
        while i < src.len()
            invariant
                self.inv(),
                self@ == v,
                src@ == v.empties,
                i <= src@.len(),
                empties@.len() == i,
                forall|k: int| 0 <= k < i ==> #[trigger] empties@[k] == enc_empties(v)[k],
            decreases src@.len() - i,
        {
            let p = src[i];
            proof {
                assert(v.empties.contains(p));
                lemma_sidx_coord_roundtrip(p.0);
                lemma_sidx_coord_roundtrip(p.1);
            }
            let code: u8 = ((p.0.1 * 3 + p.0.0) * 9 + (p.1.1 * 3 + p.1.0)) as u8;
            empties.push(code);
            i = i + 1;
        }
        proof {
            assert(empties@ =~= enc_empties(v));
        }
        GameStateData { cells, meta, next, state, turn, empties }
    }

    /// Rebuilds a state from its structured form, recounting each
    /// sub-board's marks.  Returns `None`, accepting nothing, exactly when
    /// some length or code is out of range.  The result's mathematical
    /// value is exactly what the form holds; a form obtained from a
    /// well-formed state gives back a well-formed state.
    pub fn from_data(d: &GameStateData) -> (r: Option<GameState>)
        ensures
            r is Some <==> data_ok(d.cells@, d.meta@, d.next, d.state, d.turn, d.empties@),
            r is Some ==> (r->Some_0)@ == decoded_view(
                d.cells@,
                d.meta@,
                d.next,
                d.state,
                d.turn,
                d.empties@,
            ),
            r is Some && view_wf((r->Some_0)@) ==> (r->Some_0).inv(),
    {
        let ghost w = decoded_view(d.cells@, d.meta@, d.next, d.state, d.turn, d.empties@);
        proof {
            lemma_decoded_view_index(d.cells@, d.meta@, d.next, d.state, d.turn, d.empties@);
        }
        if d.cells.len() != 81 || d.meta.len() != 9 || d.state > 3 || d.turn > 1 {
            return None;
        }
        if let Some(m) = d.next {
            if m.0 >= 3 || m.1 >= 3 {
                return None;
            }
        }
        let mut i: usize = 0;
        while i < 81
            invariant
                d.cells@.len() == 81,
                i <= 81,
                forall|k: int| 0 <= k < i ==> #[trigger] d.cells@[k] <= 2,
            decreases 81 - i,
        {
            if d.cells[i] > 2 {
                return None;
            }
            i = i + 1;
        }
        let mut i: usize = 0;
        while i < 9
            invariant
                d.meta@.len() == 9,
                i <= 9,
                forall|k: int| 0 <= k < i ==> #[trigger] d.meta@[k] <= 3,
            decreases 9 - i,
        {
            if d.meta[i] > 3 {
                return None;
            }
            i = i + 1;
        }
        let mut i: usize = 0;
        while i < d.empties.len()
            invariant
                i <= d.empties@.len(),
                forall|k: int| 0 <= k < i ==> #[trigger] d.empties@[k] < 81,
            decreases d.empties@.len() - i,
        {
            if d.empties[i] >= 81 {
                return None;
            }
            i = i + 1;
        }
        let mut boards: Vec<Board> = Vec::new();
        let mut b: usize = 0;
        while b < 9
            invariant
                w == decoded_view(d.cells@, d.meta@, d.next, d.state, d.turn, d.empties@),
                d.cells@.len() == 81,
                forall|k: int| 0 <= k < 81 ==> #[trigger] d.cells@[k] <= 2,
                b <= 9,
                boards@.len() == b,
                forall|j: int|
                    0 <= j < b ==> (#[trigger] boards@[j]).counts_ok() && boards@[j]@
                        == w.boards[j],
            decreases 9 - b,
        {
            let mut cells: Vec<BoardSpace> = Vec::new();
            let mut c: usize = 0;
            while c < 9
                invariant
                    w == decoded_view(d.cells@, d.meta@, d.next, d.state, d.turn, d.empties@),
                    d.cells@.len() == 81,
                    b < 9,
                    c <= 9,
                    cells@.len() == c,
                    forall|j: int| 0 <= j < c ==> #[trigger] cells@[j] == w.boards[b as int][j],
                decreases 9 - c,
            {
                proof {
                    lemma_decoded_view_index(d.cells@, d.meta@, d.next, d.state, d.turn, d.empties@);
                }
                let code = d.cells[b * 9 + c];
                let space: BoardSpace = if code == 1 {
                    BoardSpace::Taken(Player::X)
                } else if code == 2 {
                    BoardSpace::Taken(Player::O)
                } else {
                    BoardSpace::Empty
                };
                proof {
                    assert(w.boards[b as int][c as int] == space_of_code(
                        d.cells@[b * 9 + c],
                    ));
                }
                cells.push(space);
                c = c + 1;
            }
            let board = Board::from_cells(cells);
            proof {
                lemma_decoded_view_index(d.cells@, d.meta@, d.next, d.state, d.turn, d.empties@);
                assert(board@ =~= w.boards[b as int]);
            }
            boards.push(board);
            b = b + 1;
        }
        let mut meta: Vec<BoardState> = Vec::new();
        let mut b: usize = 0;
        while b < 9
            invariant
                w == decoded_view(d.cells@, d.meta@, d.next, d.state, d.turn, d.empties@),
                d.meta@.len() == 9,
                b <= 9,
                meta@.len() == b,
                forall|j: int| 0 <= j < b ==> #[trigger] meta@[j] == w.meta[j],
            decreases 9 - b,
        {
            proof {
                lemma_decoded_view_index(d.cells@, d.meta@, d.next, d.state, d.turn, d.empties@);
            }
            let code = d.meta[b];
            let st: BoardState = if code == 1 {
                BoardState::Concluded(BoardResult::XWin)
            } else if code == 2 {
                BoardState::Concluded(BoardResult::OWin)
            } else if code == 3 {
                BoardState::Concluded(BoardResult::Tie)
            } else {
                BoardState::Ongoing
            };
            meta.push(st);
            b = b + 1;
        }
        let next: Option<(usize, usize)> = match d.next {
            None => None,
            Some(m) => Some((m.0 as usize, m.1 as usize)),
        };
        let state: BoardState = if d.state == 1 {
            BoardState::Concluded(BoardResult::XWin)
        } else if d.state == 2 {
            BoardState::Concluded(BoardResult::OWin)
        } else if d.state == 3 {
            BoardState::Concluded(BoardResult::Tie)
        } else {
            BoardState::Ongoing
        };
        let turn: Player = if d.turn == 1 {
            Player::O
        } else {
            Player::X
        };
        let mut empties: Vec<Position> = Vec::new();
        let mut i: usize = 0;
        while i < d.empties.len()
            invariant
                w == decoded_view(d.cells@, d.meta@, d.next, d.state, d.turn, d.empties@),
                forall|k: int| 0 <= k < d.empties@.len() ==> #[trigger] d.empties@[k] < 81,
                i <= d.empties@.len(),
                empties@.len() == i,
                forall|k: int| 0 <= k < i ==> #[trigger] empties@[k] == w.empties[k],
            decreases d.empties@.len() - i,
        {
            let e = d.empties[i];
            let bi = e / 9;
            let ci = e % 9;
            let p: Position = (
                ((bi % 3) as usize, (bi / 3) as usize),
                ((ci % 3) as usize, (ci / 3) as usize),
            );
            proof {
                lemma_decoded_view_index(d.cells@, d.meta@, d.next, d.state, d.turn, d.empties@);
                assert(w.empties[i as int] == pos_of_code(d.empties@[i as int]));
            }
            empties.push(p);
            i = i + 1;
        }
        let g = GameState::from_parts(boards, meta, next, state, turn, empties);
        proof {
            assert(g@.boards =~~= w.boards);
            assert(g@.meta =~= w.meta);
            assert(g@.empties =~= w.empties);
            assert(g@ =~~= w);
        }
        Some(g)
    }
}

} // verus!
