//! The rules engine for ultimate tic-tac-toe: a 3x3 grid of 3x3 sub-boards.
//! Winning a sub-board claims the matching cell of an outer meta-board, and
//! the cell just played decides which sub-board the opponent must play in.
use vstd::prelude::*;

verus! {

/// One of the two players. `X` counts as +1 and `O` as -1 in the
/// summation-based win checks.
#[derive(Copy, Clone, PartialEq, Eq, Structural, Debug)]
pub enum Player {
    X,
    O,
}

impl Player {
    /// The numeric sign of the player: +1 for `X`, -1 for `O`.
    pub open spec fn sign(self) -> int {
        match self {
            Player::X => 1,
            Player::O => -1,
        }
    }

    /// The opponent of `self`, as a specification.
    pub open spec fn opponent(self) -> Player {
        match self {
            Player::X => Player::O,
            Player::O => Player::X,
        }
    }

    /// The opponent of `self`.
    pub fn switch(self) -> (r: Player)
        ensures
            r == self.opponent(),
    {
        match self {
            Player::X => Player::O,
            Player::O => Player::X,
        }
    }

    /// The sign of the player, as an executable value.
    pub fn sign_i32(self) -> (r: i32)
        ensures
            r == self.sign(),
    {
        match self {
            Player::X => 1,
            Player::O => -1,
        }
    }

    /// The outcome that means a win for `self`.
    pub open spec fn win(self) -> BoardResult {
        match self {
            Player::X => BoardResult::XWin,
            Player::O => BoardResult::OWin,
        }
    }
}

/// One cell of a 3x3 grid: empty, or taken by a player.
#[derive(Copy, Clone, PartialEq, Eq, Structural, Debug)]
pub enum BoardSpace {
    Empty,
    Taken(Player),
}

impl BoardSpace {
    /// The numeric sign of the cell: the owner's sign, or 0 when empty.
    pub open spec fn sign(self) -> int {
        match self {
            BoardSpace::Empty => 0,
            BoardSpace::Taken(p) => p.sign(),
        }
    }
}

/// The outcome of a concluded 3x3 grid, at either level.
#[derive(Copy, Clone, PartialEq, Eq, Structural, Debug)]
pub enum BoardResult {
    XWin,
    Tie,
    OWin,
}

impl BoardResult {
    /// The numeric sign of the outcome: +1 for an X win, -1 for an O win,
    /// 0 for a tie.
    pub open spec fn sign(self) -> int {
        match self {
            BoardResult::XWin => 1,
            BoardResult::Tie => 0,
            BoardResult::OWin => -1,
        }
    }

    /// The sign of the outcome, as an executable value.
    pub fn sign_i32(self) -> (r: i32)
        ensures
            r == self.sign(),
    {
        match self {
            BoardResult::XWin => 1,
            BoardResult::Tie => 0,
            BoardResult::OWin => -1,
        }
    }
}

/// Whether a 3x3 grid (a sub-board, or the whole game) is still being
/// played or has concluded with an outcome.
#[derive(Copy, Clone, PartialEq, Eq, Structural, Debug)]
pub enum BoardState {
    Ongoing,
    Concluded(BoardResult),
}

impl BoardState {
    /// The numeric sign of a meta-board cell: the concluded outcome's sign,
    /// or 0 while the sub-board is still being played.
    pub open spec fn sign(self) -> int {
        match self {
            BoardState::Ongoing => 0,
            BoardState::Concluded(r) => r.sign(),
        }
    }
}

/// A cell of the full game: the coordinate of a sub-board, and a coordinate
/// within it.  Both are `(column, row)` pairs in `{0,1,2}`.
pub type Position = ((usize, usize), (usize, usize));

/// Whether a `(column, row)` pair lies on a 3x3 grid.
pub open spec fn coord_ok(c: (usize, usize)) -> bool {
    c.0 < 3 && c.1 < 3
}

/// Whether both coordinates of a position lie on their grids.
pub open spec fn pos_ok(p: Position) -> bool {
    coord_ok(p.0) && coord_ok(p.1)
}

/// The flat index of a `(column, row)` pair in a row-major sequence of 9.
pub open spec fn sidx(c: (usize, usize)) -> int {
    c.1 * 3 + c.0
}

/// The `(column, row)` pair of a flat index in a row-major sequence of 9.
pub open spec fn coord_of(i: int) -> (usize, usize) {
    ((i % 3) as usize, (i / 3) as usize)
}

/// The position with flat sub-board index `k / 9` and flat cell index
/// `k % 9`, for `k` below 81.
pub open spec fn flat_pos(k: int) -> Position {
    (coord_of(k / 9), coord_of(k % 9))
}

pub proof fn lemma_coord_of_sidx(i: int)
    requires
        0 <= i < 9,
    ensures
        coord_ok(coord_of(i)),
        sidx(coord_of(i)) == i,
{
}

// ---------------------------------------------------------------------------
// Counting marks on a 3x3 grid
// ---------------------------------------------------------------------------

/// How many cells of `cells` are taken by `p`.
pub open spec fn count_taken(cells: Seq<BoardSpace>, p: Player) -> int
    decreases cells.len(),
{
    if cells.len() <= 0 {
        0
    } else {
        count_taken(cells.drop_last(), p) + if cells.last() == BoardSpace::Taken(p) {
            1int
        } else {
            0int
        }
    }
}

/// How many cells of `cells` are empty.
pub open spec fn count_empty(cells: Seq<BoardSpace>) -> int
    decreases cells.len(),
{
    if cells.len() <= 0 {
        0
    } else {
        count_empty(cells.drop_last()) + if cells.last() == BoardSpace::Empty {
            1int
        } else {
            0int
        }
    }
}

pub proof fn lemma_count_bounds(cells: Seq<BoardSpace>, p: Player)
    ensures
        0 <= count_taken(cells, p) <= cells.len(),
    decreases cells.len(),
{
    if cells.len() > 0 {
        lemma_count_bounds(cells.drop_last(), p);
    }
}

pub proof fn lemma_count_empty_bounds(cells: Seq<BoardSpace>)
    ensures
        0 <= count_empty(cells) <= cells.len(),
    decreases cells.len(),
{
    if cells.len() > 0 {
        lemma_count_empty_bounds(cells.drop_last());
    }
}

/// Every cell is empty, taken by X, or taken by O, so the three counts
/// partition the grid.
pub proof fn lemma_counts_partition(cells: Seq<BoardSpace>)
    ensures
        count_taken(cells, Player::X) + count_taken(cells, Player::O) + count_empty(cells)
            == cells.len(),
    decreases cells.len(),
{
    if cells.len() > 0 {
        lemma_counts_partition(cells.drop_last());
    }
}

pub proof fn lemma_count_update(cells: Seq<BoardSpace>, p: Player, i: int, v: BoardSpace)
    requires
        0 <= i < cells.len(),
    ensures
        count_taken(cells.update(i, v), p) == count_taken(cells, p) - (
        if cells[i] == BoardSpace::Taken(p) {
            1int
        } else {
            0int
        }) + (if v == BoardSpace::Taken(p) {
            1int
        } else {
            0int
        }),
    decreases cells.len(),
{
    let upd = cells.update(i, v);
    if i == cells.len() - 1 {
        assert(upd.drop_last() =~= cells.drop_last());
    } else {
        assert(upd.drop_last() =~= cells.drop_last().update(i, v));
        lemma_count_update(cells.drop_last(), p, i, v);
        assert(upd.last() == cells.last());
    }
}

/// Appending a cell extends the count by one exactly when the cell carries
/// the counted mark.
pub proof fn lemma_count_push(cells: Seq<BoardSpace>, p: Player, x: BoardSpace)
    ensures
        count_taken(cells.push(x), p) == count_taken(cells, p) + (
        if x == BoardSpace::Taken(p) {
            1int
        } else {
            0int
        }),
{
    assert(cells.push(x).drop_last() =~= cells);
    assert(cells.push(x).last() == x);
}

/// If some cell is empty, the empty count is positive.
pub proof fn lemma_empty_cell_counts(cells: Seq<BoardSpace>, i: int)
    requires
        0 <= i < cells.len(),
        cells[i] == BoardSpace::Empty,
    ensures
        count_empty(cells) >= 1,
    decreases cells.len(),
{
    if i == cells.len() - 1 {
        lemma_count_empty_bounds(cells.drop_last());
    } else {
        assert(cells.drop_last()[i] == cells[i]);
        lemma_empty_cell_counts(cells.drop_last(), i);
    }
}

/// If the empty count is zero, no cell is empty.
pub proof fn lemma_no_empty_cells(cells: Seq<BoardSpace>)
    requires
        count_empty(cells) == 0,
    ensures
        forall|i: int| 0 <= i < cells.len() ==> cells[i] != BoardSpace::Empty,
{
    assert forall|i: int| 0 <= i < cells.len() implies cells[i] != BoardSpace::Empty by {
        if cells[i] == BoardSpace::Empty {
            lemma_empty_cell_counts(cells, i);
        }
    }
}

proof fn lemma_count_from_one(cells: Seq<BoardSpace>, p: Player, a: int)
    requires
        0 <= a < cells.len(),
        cells[a] == BoardSpace::Taken(p),
    ensures
        count_taken(cells, p) >= 1,
    decreases cells.len(),
{
    if a == cells.len() - 1 {
        lemma_count_bounds(cells.drop_last(), p);
    } else {
        assert(cells.drop_last()[a] == cells[a]);
        lemma_count_from_one(cells.drop_last(), p, a);
    }
}

proof fn lemma_count_from_two(cells: Seq<BoardSpace>, p: Player, a: int, b: int)
    requires
        0 <= a < b < cells.len(),
        cells[a] == BoardSpace::Taken(p),
        cells[b] == BoardSpace::Taken(p),
    ensures
        count_taken(cells, p) >= 2,
    decreases cells.len(),
{
    if b == cells.len() - 1 {
        lemma_count_from_one(cells.drop_last(), p, a);
    } else {
        lemma_count_from_two(cells.drop_last(), p, a, b);
    }
}

/// Three distinct marked cells force the mark count to at least three.
pub proof fn lemma_count_from_three(cells: Seq<BoardSpace>, p: Player, a: int, b: int, c: int)
    requires
        0 <= a < b < c < cells.len(),
        cells[a] == BoardSpace::Taken(p),
        cells[b] == BoardSpace::Taken(p),
        cells[c] == BoardSpace::Taken(p),
    ensures
        count_taken(cells, p) >= 3,
    decreases cells.len(),
{
    if c == cells.len() - 1 {
        lemma_count_from_two(cells.drop_last(), p, a, b);
    } else {
        lemma_count_from_three(cells.drop_last(), p, a, b, c);
    }
}

// ---------------------------------------------------------------------------
// Lines on a 3x3 grid of cells
// ---------------------------------------------------------------------------

/// Three given cells all taken by `p`.
pub open spec fn triple(cells: Seq<BoardSpace>, p: Player, a: int, b: int, c: int) -> bool {
    &&& cells[a] == BoardSpace::Taken(p)
    &&& cells[b] == BoardSpace::Taken(p)
    &&& cells[c] == BoardSpace::Taken(p)
}

/// `p` owns three in a row somewhere on the grid: a row, a column, or one of
/// the two diagonals.
pub open spec fn has_line(cells: Seq<BoardSpace>, p: Player) -> bool {
    ||| triple(cells, p, 0, 1, 2)
    ||| triple(cells, p, 3, 4, 5)
    ||| triple(cells, p, 6, 7, 8)
    ||| triple(cells, p, 0, 3, 6)
    ||| triple(cells, p, 1, 4, 7)
    ||| triple(cells, p, 2, 5, 8)
    ||| triple(cells, p, 0, 4, 8)
    ||| triple(cells, p, 2, 4, 6)
}

/// The lines the win check inspects after a placement at `(x, y)`: the row
/// and column through the placement, and both diagonals.
pub open spec fn line_through(cells: Seq<BoardSpace>, p: Player, x: int, y: int) -> bool {
    ||| triple(cells, p, 3 * y, 3 * y + 1, 3 * y + 2)
    ||| triple(cells, p, x, x + 3, x + 6)
    ||| triple(cells, p, 0, 4, 8)
    ||| triple(cells, p, 2, 4, 6)
}

/// The whole grid is marked.
pub open spec fn is_full(cells: Seq<BoardSpace>) -> bool {
    forall|i: int| 0 <= i < cells.len() ==> cells[i] != BoardSpace::Empty
}

/// The status a 3x3 grid of cells has on its own: a grid with a line is won
/// by the line's owner, a full grid without one is tied, anything else is
/// still being played.
pub open spec fn sub_board_status(cells: Seq<BoardSpace>) -> BoardState {
    if has_line(cells, Player::X) {
        BoardState::Concluded(BoardResult::XWin)
    } else if has_line(cells, Player::O) {
        BoardState::Concluded(BoardResult::OWin)
    } else if is_full(cells) {
        BoardState::Concluded(BoardResult::Tie)
    } else {
        BoardState::Ongoing
    }
}

/// What the placement-time win check reports for a grid, looking only at the
/// lines through the cell `(x, y)` just played and the two diagonals.
pub open spec fn sub_check_at(cells: Seq<BoardSpace>, pos: (usize, usize)) -> BoardState {
    if line_through(cells, Player::X, pos.0 as int, pos.1 as int) {
        BoardState::Concluded(BoardResult::XWin)
    } else if line_through(cells, Player::O, pos.0 as int, pos.1 as int) {
        BoardState::Concluded(BoardResult::OWin)
    } else if is_full(cells) {
        BoardState::Concluded(BoardResult::Tie)
    } else {
        BoardState::Ongoing
    }
}

/// On a grid that had no line before the cell `pos` was filled, the check
/// restricted to the lines through `pos` agrees with the full status: a new
/// line must pass through the cell just played.
pub proof fn lemma_check_at_is_status(
    old_cells: Seq<BoardSpace>,
    cells: Seq<BoardSpace>,
    pos: (usize, usize),
    player: Player,
)
    requires
        old_cells.len() == 9,
        coord_ok(pos),
        !has_line(old_cells, Player::X),
        !has_line(old_cells, Player::O),
        old_cells[sidx(pos)] == BoardSpace::Empty,
        cells == old_cells.update(sidx(pos), BoardSpace::Taken(player)),
    ensures
        sub_check_at(cells, pos) == sub_board_status(cells),
        sub_board_status(cells) == BoardState::Concluded(player.win()) <==> has_line(
            cells,
            player,
        ),
        !has_line(cells, player.opponent()),
{
    let i = sidx(pos);
    assert(!has_line(cells, player.opponent()));
    if has_line(cells, player) {
        assert(line_through(cells, player, pos.0 as int, pos.1 as int));
    }
    if line_through(cells, player.opponent(), pos.0 as int, pos.1 as int) {
        assert(cells[i] == BoardSpace::Taken(player));
        assert(has_line(old_cells, player.opponent()));
    }
}

// ---------------------------------------------------------------------------
// The meta-board: a 3x3 grid of sub-board outcomes
// ---------------------------------------------------------------------------

/// A given meta-board cell records a win for `p`.
pub open spec fn meta_triple(meta: Seq<BoardState>, p: Player, a: int, b: int, c: int) -> bool {
    &&& meta[a] == BoardState::Concluded(p.win())
    &&& meta[b] == BoardState::Concluded(p.win())
    &&& meta[c] == BoardState::Concluded(p.win())
}

/// `p` owns three won sub-boards in a row on the meta-board.
pub open spec fn meta_has_line(meta: Seq<BoardState>, p: Player) -> bool {
    ||| meta_triple(meta, p, 0, 1, 2)
    ||| meta_triple(meta, p, 3, 4, 5)
    ||| meta_triple(meta, p, 6, 7, 8)
    ||| meta_triple(meta, p, 0, 3, 6)
    ||| meta_triple(meta, p, 1, 4, 7)
    ||| meta_triple(meta, p, 2, 5, 8)
    ||| meta_triple(meta, p, 0, 4, 8)
    ||| meta_triple(meta, p, 2, 4, 6)
}

/// The meta-board lines inspected after the sub-board at `(x, y)` concluded.
pub open spec fn meta_line_through(meta: Seq<BoardState>, p: Player, x: int, y: int) -> bool {
    ||| meta_triple(meta, p, 3 * y, 3 * y + 1, 3 * y + 2)
    ||| meta_triple(meta, p, x, x + 3, x + 6)
    ||| meta_triple(meta, p, 0, 4, 8)
    ||| meta_triple(meta, p, 2, 4, 6)
}

/// Every sub-board has concluded.
pub open spec fn meta_all_concluded(meta: Seq<BoardState>) -> bool {
    forall|i: int| 0 <= i < meta.len() ==> meta[i] is Concluded
}

/// The status of the whole game as the meta-board determines it.
pub open spec fn meta_status(meta: Seq<BoardState>) -> BoardState {
    if meta_has_line(meta, Player::X) {
        BoardState::Concluded(BoardResult::XWin)
    } else if meta_has_line(meta, Player::O) {
        BoardState::Concluded(BoardResult::OWin)
    } else if meta_all_concluded(meta) {
        BoardState::Concluded(BoardResult::Tie)
    } else {
        BoardState::Ongoing
    }
}

/// What the game-level win check reports, looking only at the meta-board
/// lines through the sub-board `(x, y)` that just concluded.
pub open spec fn meta_check_at(meta: Seq<BoardState>, pos: (usize, usize)) -> BoardState {
    if meta_line_through(meta, Player::X, pos.0 as int, pos.1 as int) {
        BoardState::Concluded(BoardResult::XWin)
    } else if meta_line_through(meta, Player::O, pos.0 as int, pos.1 as int) {
        BoardState::Concluded(BoardResult::OWin)
    } else if meta_all_concluded(meta) {
        BoardState::Concluded(BoardResult::Tie)
    } else {
        BoardState::Ongoing
    }
}

/// The meta-board counterpart of `lemma_check_at_is_status`: when the
/// meta-board had no line and the cell at `pos` goes from ongoing to a
/// concluded outcome, the check restricted to the lines through `pos` agrees
/// with the full status.
pub proof fn lemma_meta_check_at_is_status(
    old_meta: Seq<BoardState>,
    meta: Seq<BoardState>,
    pos: (usize, usize),
    outcome: BoardResult,
)
    requires
        old_meta.len() == 9,
        coord_ok(pos),
        !meta_has_line(old_meta, Player::X),
        !meta_has_line(old_meta, Player::O),
        old_meta[sidx(pos)] is Ongoing,
        meta == old_meta.update(sidx(pos), BoardState::Concluded(outcome)),
    ensures
        meta_check_at(meta, pos) == meta_status(meta),
{
    let i = sidx(pos);
    if meta_has_line(meta, Player::X) {
        assert(meta_line_through(meta, Player::X, pos.0 as int, pos.1 as int));
    }
    if meta_has_line(meta, Player::O) {
        assert(meta_line_through(meta, Player::O, pos.0 as int, pos.1 as int));
    }
    if meta_line_through(meta, Player::X, pos.0 as int, pos.1 as int) && meta_line_through(
        meta,
        Player::O,
        pos.0 as int,
        pos.1 as int,
    ) {
        assert(meta[i] == BoardState::Concluded(Player::X.win()) && meta[i]
            == BoardState::Concluded(Player::O.win()));
        assert(false);
    }
}

// ---------------------------------------------------------------------------
// A single 3x3 sub-board
// ---------------------------------------------------------------------------

/// A single 3x3 grid of cells, with cached counts of placed marks.  The
/// counts let the win check skip grids where no player can have a line yet.
pub struct Board {
    /// The nine cells, row-major: the cell `(x, y)` is at index `y*3 + x`.
    pub board: Vec<BoardSpace>,
    x_count: u32,
    o_count: u32,
}

impl View for Board {
    type V = Seq<BoardSpace>;

    closed spec fn view(&self) -> Seq<BoardSpace> {
        self.board@
    }
}

impl Clone for Board {
    fn clone(&self) -> (r: Self)
        ensures
            r@ == self@,
            self.counts_ok() ==> r.counts_ok(),
    {
        let cells = self.board.clone();
        proof {
            assert(cells@ =~= self.board@);
        }
        Board { board: cells, x_count: self.x_count, o_count: self.o_count }
    }
}

impl Board {
    /// The cached counts agree with the cells and the grid has nine cells.
    pub closed spec fn counts_ok(self) -> bool {
        &&& self.board@.len() == 9
        &&& self.x_count == count_taken(self.board@, Player::X)
        &&& self.o_count == count_taken(self.board@, Player::O)
    }

    pub proof fn lemma_counts_ok_len(self)
        requires
            self.counts_ok(),
        ensures
            self@.len() == 9,
    {
    }

    /// A fresh, all-empty sub-board.
    fn new() -> (r: Board)
        ensures
            r.counts_ok(),
            r@ == Seq::new(9, |i: int| BoardSpace::Empty),
    {
        let cells: Vec<BoardSpace> = vec![BoardSpace::Empty; 9];
        proof {
            assert(cells@ =~= Seq::new(9, |i: int| BoardSpace::Empty));
            assert(count_taken(cells@, Player::X) == 0) by {
                lemma_all_empty_counts(cells@);
            }
            assert(count_taken(cells@, Player::O) == 0) by {
                lemma_all_empty_counts(cells@);
            }
        }
        Board { board: cells, x_count: 0, o_count: 0 }
    }

    /// Rebuilds a sub-board from its cells, recounting the marks.
    pub(crate) fn from_cells(cells: Vec<BoardSpace>) -> (r: Board)
        requires
            cells@.len() == 9,
        ensures
            r@ == cells@,
            r.counts_ok(),
    {
        let mut x_count: u32 = 0;
        let mut o_count: u32 = 0;
        let mut i: usize = 0;
        while i < 9
            invariant
                i <= 9,
                cells@.len() == 9,
                x_count == count_taken(cells@.take(i as int), Player::X),
                o_count == count_taken(cells@.take(i as int), Player::O),
                x_count <= i && o_count <= i,
            decreases 9 - i,
        {
            proof {
                lemma_count_push(cells@.take(i as int), Player::X, cells@[i as int]);
                lemma_count_push(cells@.take(i as int), Player::O, cells@[i as int]);
                assert(cells@.take(i as int).push(cells@[i as int]) =~= cells@.take(i + 1));
            }
            match cells[i] {
                BoardSpace::Taken(Player::X) => {
                    x_count = x_count + 1;
                },
                BoardSpace::Taken(Player::O) => {
                    o_count = o_count + 1;
                },
                BoardSpace::Empty => {},
            }
            i = i + 1;
        }
        proof {
            assert(cells@.take(9) =~= cells@);
        }
        Board { board: cells, x_count, o_count }
    }

    /// The cell at `pos`.
    pub fn get_space(&self, pos: (usize, usize)) -> (r: BoardSpace)
        requires
            coord_ok(pos),
            self@.len() == 9,
        ensures
            r == self@[sidx(pos)],
    {
        self.board[pos.1 * 3 + pos.0]
    }

    /// Marks the cell at `pos` for `player` and reports the grid's status
    /// as the placement-time check sees it.  Fails, changing nothing, iff
    /// the cell is already taken.
    fn place(&mut self, pos: (usize, usize), player: Player) -> (r: Result<
        BoardState,
        InvalidMoveError,
    >)
        requires
            old(self).counts_ok(),
            coord_ok(pos),
        ensures
            final(self).counts_ok(),
            r is Ok <==> old(self)@[sidx(pos)] == BoardSpace::Empty,
            r is Err ==> *final(self) == *old(self),
            r is Ok ==> final(self)@ == old(self)@.update(
                sidx(pos),
                BoardSpace::Taken(player),
            ) && r == Ok::<BoardState, InvalidMoveError>(sub_check_at(final(self)@, pos)),
    {
        let i = pos.1 * 3 + pos.0;
        if matches!(self.board[i], BoardSpace::Empty) {
            proof {
                lemma_count_bounds(self.board@, Player::X);
                lemma_count_bounds(self.board@, Player::O);
                lemma_count_update(self.board@, Player::X, i as int, BoardSpace::Taken(player));
                lemma_count_update(self.board@, Player::O, i as int, BoardSpace::Taken(player));
            }
            self.board[i] = BoardSpace::Taken(player);
            match player {
                Player::X => {
                    self.x_count = self.x_count + 1;
                },
                Player::O => {
                    self.o_count = self.o_count + 1;
                },
            }
            Ok(self.check_wins(pos))
        } else {
            Err(InvalidMoveError)
        }
    }

    /// The grid's status as seen from the cell `pos`: the win check sums the
    /// signed marks along the row and column through `pos` and both
    /// diagonals, and only runs once some player has placed three marks.
    #[verifier::rlimit(30)]
    pub fn check_wins(&self, pos: (usize, usize)) -> (r: BoardState)
        requires
            self.counts_ok(),
            coord_ok(pos),
        ensures
            r == sub_check_at(self@, pos),
    {
        proof {
            lemma_count_bounds(self@, Player::X);
            lemma_count_bounds(self@, Player::O);
        }
        if self.x_count < 3 && self.o_count < 3 {
            proof {
                if line_through(self@, Player::X, pos.0 as int, pos.1 as int) {
                    lemma_line_through_needs_three(self@, Player::X, pos);
                }
                if line_through(self@, Player::O, pos.0 as int, pos.1 as int) {
                    lemma_line_through_needs_three(self@, Player::O, pos);
                }
                if is_full(self@) {
                    lemma_full_counts(self@);
                    lemma_counts_partition(self@);
                }
            }
            BoardState::Ongoing
        } else {
            let x = pos.0;
            let y = pos.1;
            let row = space_sign(self.board[3 * y]) + space_sign(self.board[3 * y + 1])
                + space_sign(self.board[3 * y + 2]);
            let col = space_sign(self.board[x]) + space_sign(self.board[x + 3]) + space_sign(
                self.board[x + 6],
            );
            let diag = space_sign(self.board[0]) + space_sign(self.board[4]) + space_sign(
                self.board[8],
            );
            let rdiag = space_sign(self.board[2]) + space_sign(self.board[4]) + space_sign(
                self.board[6],
            );
            proof {
                let cs = self@;
                let xi = pos.0 as int;
                let yi = pos.1 as int;
                lemma_sign_sum3(cs[3 * yi], cs[3 * yi + 1], cs[3 * yi + 2]);
                lemma_sign_sum3(cs[xi], cs[xi + 3], cs[xi + 6]);
                lemma_sign_sum3(cs[0], cs[4], cs[8]);
                lemma_sign_sum3(cs[2], cs[4], cs[6]);
            }
            if row == 3 || col == 3 || diag == 3 || rdiag == 3 {
                return BoardState::Concluded(BoardResult::XWin);
            }
            if row == -3 || col == -3 || diag == -3 || rdiag == -3 {
                return BoardState::Concluded(BoardResult::OWin);
            }
            if self.x_count + self.o_count == 9 {
                proof {
                    lemma_counts_partition(self@);
                    lemma_no_empty_cells(self@);
                }
                return BoardState::Concluded(BoardResult::Tie);
            }
            proof {
                if is_full(self@) {
                    lemma_full_counts(self@);
                    lemma_counts_partition(self@);
                }
            }
            BoardState::Ongoing
        }
    }
}

impl Board {
    /// Whether the cached counts agree with the cells, decided at runtime
    /// by recounting.
    fn counts_valid(&self) -> (r: bool)
        ensures
            r == self.counts_ok(),
    {
        if self.board.len() != 9 {
            return false;
        }
        let mut x_count: u32 = 0;
        let mut o_count: u32 = 0;
        let mut i: usize = 0;
        while i < 9
            invariant
                i <= 9,
                self.board@.len() == 9,
                x_count == count_taken(self.board@.take(i as int), Player::X),
                o_count == count_taken(self.board@.take(i as int), Player::O),
                x_count <= i && o_count <= i,
            decreases 9 - i,
        {
            proof {
                lemma_count_push(self.board@.take(i as int), Player::X, self.board@[i as int]);
                lemma_count_push(self.board@.take(i as int), Player::O, self.board@[i as int]);
                assert(self.board@.take(i as int).push(self.board@[i as int]) =~= self.board@.take(
                    i + 1,
                ));
            }
            match self.board[i] {
                BoardSpace::Taken(Player::X) => {
                    x_count = x_count + 1;
                },
                BoardSpace::Taken(Player::O) => {
                    o_count = o_count + 1;
                },
                BoardSpace::Empty => {},
            }
            i = i + 1;
        }
        proof {
            assert(self.board@.take(9) =~= self.board@);
        }
        x_count == self.x_count && o_count == self.o_count
    }

    /// Whether three given cells are all taken by `p`.
    fn line3(&self, a: usize, b: usize, c: usize, p: Player) -> (r: bool)
        requires
            self@.len() == 9,
            a < 9,
            b < 9,
            c < 9,
        ensures
            r == triple(self@, p, a as int, b as int, c as int),
    {
        let t = BoardSpace::Taken(p);
        self.board[a] == t && self.board[b] == t && self.board[c] == t
    }

    /// Whether `p` owns a line somewhere on the grid.
    fn has_line_of(&self, p: Player) -> (r: bool)
        requires
            self@.len() == 9,
        ensures
            r == has_line(self@, p),
    {
        self.line3(0, 1, 2, p) || self.line3(3, 4, 5, p) || self.line3(6, 7, 8, p) || self.line3(
            0,
            3,
            6,
            p,
        ) || self.line3(1, 4, 7, p) || self.line3(2, 5, 8, p) || self.line3(0, 4, 8, p)
            || self.line3(2, 4, 6, p)
    }

    /// Whether the whole grid is marked.
    fn is_full_now(&self) -> (r: bool)
        requires
            self@.len() == 9,
        ensures
            r == is_full(self@),
    {
        let mut i: usize = 0;
        while i < 9
            invariant
                i <= 9,
                self@.len() == 9,
                forall|j: int| 0 <= j < i ==> self@[j] != BoardSpace::Empty,
            decreases 9 - i,
        {
            if matches!(self.board[i], BoardSpace::Empty) {
                return false;
            }
            i = i + 1;
        }
        true
    }

    /// The grid's status, derived from its cells alone.
    fn status_of(&self) -> (r: BoardState)
        requires
            self@.len() == 9,
        ensures
            r == sub_board_status(self@),
    {
        if self.has_line_of(Player::X) {
            BoardState::Concluded(BoardResult::XWin)
        } else if self.has_line_of(Player::O) {
            BoardState::Concluded(BoardResult::OWin)
        } else if self.is_full_now() {
            BoardState::Concluded(BoardResult::Tie)
        } else {
            BoardState::Ongoing
        }
    }
}

/// A full grid has no empty cell to count.
proof fn lemma_full_counts(cells: Seq<BoardSpace>)
    requires
        is_full(cells),
    ensures
        count_empty(cells) == 0,
    decreases cells.len(),
{
    if cells.len() > 0 {
        assert(forall|i: int|
            0 <= i < cells.len() - 1 ==> cells.drop_last()[i] == cells[i]);
        lemma_full_counts(cells.drop_last());
        assert(cells.last() != BoardSpace::Empty);
    }
}

/// The signed sum of three cells is 3 exactly when X holds all three, and
/// -3 exactly when O does.
proof fn lemma_sign_sum3(a: BoardSpace, b: BoardSpace, c: BoardSpace)
    ensures
        a.sign() + b.sign() + c.sign() == 3 <==> (a == BoardSpace::Taken(Player::X) && b
            == BoardSpace::Taken(Player::X) && c == BoardSpace::Taken(Player::X)),
        a.sign() + b.sign() + c.sign() == -3 <==> (a == BoardSpace::Taken(Player::O) && b
            == BoardSpace::Taken(Player::O) && c == BoardSpace::Taken(Player::O)),
{
}

/// A line through `pos` needs three marks from its owner.
proof fn lemma_line_through_needs_three(cells: Seq<BoardSpace>, p: Player, pos: (usize, usize))
    requires
        cells.len() == 9,
        coord_ok(pos),
        line_through(cells, p, pos.0 as int, pos.1 as int),
    ensures
        count_taken(cells, p) >= 3,
{
    let x = pos.0 as int;
    let y = pos.1 as int;
    if triple(cells, p, 3 * y, 3 * y + 1, 3 * y + 2) {
        lemma_count_from_three(cells, p, 3 * y, 3 * y + 1, 3 * y + 2);
    } else if triple(cells, p, x, x + 3, x + 6) {
        lemma_count_from_three(cells, p, x, x + 3, x + 6);
    } else if triple(cells, p, 0, 4, 8) {
        lemma_count_from_three(cells, p, 0, 4, 8);
    } else {
        lemma_count_from_three(cells, p, 2, 4, 6);
    }
}

/// An all-empty grid has no marks.
proof fn lemma_all_empty_counts(cells: Seq<BoardSpace>)
    requires
        forall|i: int| 0 <= i < cells.len() ==> cells[i] == BoardSpace::Empty,
    ensures
        count_taken(cells, Player::X) == 0,
        count_taken(cells, Player::O) == 0,
    decreases cells.len(),
{
    if cells.len() > 0 {
        assert(forall|i: int|
            0 <= i < cells.len() - 1 ==> cells.drop_last()[i] == cells[i]);
        lemma_all_empty_counts(cells.drop_last());
    }
}

/// The sign of a cell, as an executable value.
fn space_sign(s: BoardSpace) -> (r: i32)
    ensures
        r == s.sign(),
{
    match s {
        BoardSpace::Empty => 0,
        BoardSpace::Taken(Player::X) => 1,
        BoardSpace::Taken(Player::O) => -1,
    }
}

/// The error `place` reports for a move the rules refuse: a move outside the
/// required sub-board, into a concluded sub-board or game, or onto a taken
/// cell.
#[derive(Debug)]
pub struct InvalidMoveError;

// ---------------------------------------------------------------------------
// The mathematical model of a full game state
// ---------------------------------------------------------------------------

/// The mathematical value of a full game state: nine sub-board grids, the
/// meta-board of their outcomes, the sub-board the next move is constrained
/// to, the overall outcome, whose turn it is, and the set of playable empty
/// cells.
#[verifier::ext_equal]
pub struct GameView {
    pub boards: Seq<Seq<BoardSpace>>,
    pub meta: Seq<BoardState>,
    pub next: Option<(usize, usize)>,
    pub state: BoardState,
    pub turn: Player,
    pub empties: Seq<Position>,
}

/// Well-formedness of a game state: every grid has nine cells, each
/// meta-board entry is exactly the status its sub-board's cells determine,
/// the move constraint only ever names an ongoing sub-board, the overall
/// outcome is exactly what the meta-board determines, and the empty-cell set
/// holds exactly the empty cells of ongoing sub-boards.
pub open spec fn view_wf(v: GameView) -> bool {
    &&& v.boards.len() == 9
    &&& forall|b: int| 0 <= b < 9 ==> (#[trigger] v.boards[b]).len() == 9
    &&& v.meta.len() == 9
    &&& forall|b: int| 0 <= b < 9 ==> #[trigger] v.meta[b] == sub_board_status(v.boards[b])
    &&& match v.next {
        Some(m) => coord_ok(m) && v.meta[sidx(m)] is Ongoing,
        None => true,
    }
    &&& v.state == meta_status(v.meta)
    &&& forall|p: Position| (#[trigger] v.empties.contains(p)) <==> playable(v, p)
}

/// The cell `p` is playable as far as the boards go: it names real
/// coordinates, its sub-board is still being played, and it is empty.
/// These are exactly the cells the empty-cell set holds.
pub open spec fn playable(v: GameView, p: Position) -> bool {
    &&& pos_ok(p)
    &&& v.meta[sidx(p.0)] is Ongoing
    &&& v.boards[sidx(p.0)][sidx(p.1)] == BoardSpace::Empty
}

/// The rules' conditions on a move, apart from the game still running: the
/// move names real coordinates, respects the constraint on the next
/// sub-board, and lands on an empty cell of an ongoing sub-board.
pub open spec fn move_ok(v: GameView, meta_pos: (usize, usize), mini_pos: (usize, usize)) -> bool {
    &&& coord_ok(meta_pos) && coord_ok(mini_pos)
    &&& match v.next {
        Some(m) => m == meta_pos,
        None => true,
    }
    &&& v.meta[sidx(meta_pos)] is Ongoing
    &&& v.boards[sidx(meta_pos)][sidx(mini_pos)] == BoardSpace::Empty
}

/// The predicate deciding which empty cells survive a placement: the cell
/// itself goes, and when the placement concluded its sub-board the whole
/// sub-board's cells go with it.
pub open spec fn keep_after(meta_pos: (usize, usize), mini_pos: (usize, usize), concluded: bool) -> spec_fn(
    Position,
) -> bool {
    |p: Position|
        if concluded {
            p.0 != meta_pos
        } else {
            p != (meta_pos, mini_pos)
        }
}

/// The empty-cell set after a placement.
pub open spec fn purge_empties(
    empties: Seq<Position>,
    meta_pos: (usize, usize),
    mini_pos: (usize, usize),
    concluded: bool,
) -> Seq<Position> {
    empties.filter(keep_after(meta_pos, mini_pos, concluded))
}

/// The predicate selecting the cells of one sub-board.
pub open spec fn in_board(m: (usize, usize)) -> spec_fn(Position) -> bool {
    |p: Position| p.0 == m
}

/// The legal moves of a state: the empty-cell set, filtered by the
/// constraint on the next sub-board when there is one.
pub open spec fn constrained_moves(v: GameView) -> Seq<Position> {
    match v.next {
        Some(m) => v.empties.filter(in_board(m)),
        None => v.empties,
    }
}

/// The state after a legal placement: the cell is marked for the mover, the
/// sub-board's status is re-derived, the meta-board mirrors it, the
/// empty-cell set is purged, the next-board constraint points at the
/// sub-board matching the cell just played unless that one is over, the turn
/// flips, and the overall outcome is re-derived when a sub-board concluded.
pub open spec fn step(v: GameView, meta_pos: (usize, usize), mini_pos: (usize, usize)) -> GameView {
    let b = sidx(meta_pos);
    let cells = v.boards[b].update(sidx(mini_pos), BoardSpace::Taken(v.turn));
    let status = sub_board_status(cells);
    let meta = v.meta.update(b, status);
    let concluded = status is Concluded;
    GameView {
        boards: v.boards.update(b, cells),
        meta: meta,
        next: if meta[sidx(mini_pos)] is Ongoing {
            Some(mini_pos)
        } else {
            None
        },
        state: if concluded {
            meta_status(meta)
        } else {
            v.state
        },
        turn: v.turn.opponent(),
        empties: purge_empties(v.empties, meta_pos, mini_pos, concluded),
    }
}

/// All 81 positions of a fresh game, in the order the engine enumerates
/// them: sub-boards row-major, and cells row-major within each.
pub open spec fn all_positions() -> Seq<Position> {
    Seq::new(81, |k: int| (coord_of(k / 9), coord_of(k % 9)))
}

/// The state of a fresh game.
pub open spec fn init_view(starting_player: Player) -> GameView {
    GameView {
        boards: Seq::new(9, |b: int| Seq::new(9, |c: int| BoardSpace::Empty)),
        meta: Seq::new(9, |b: int| BoardState::Ongoing),
        next: None,
        state: BoardState::Ongoing,
        turn: starting_player,
        empties: all_positions(),
    }
}

// ---------------------------------------------------------------------------
// Facts about filtered sequences
// ---------------------------------------------------------------------------

/// Extending a prefix by one element extends its filtered image by that
/// element exactly when the predicate holds of it.
pub proof fn lemma_filter_take_step<A>(s: Seq<A>, pred: spec_fn(A) -> bool, k: int)
    requires
        0 <= k < s.len(),
    ensures
        s.take(k + 1).filter(pred) == (if pred(s[k]) {
            s.take(k).filter(pred).push(s[k])
        } else {
            s.take(k).filter(pred)
        }),
{
    reveal(Seq::filter);
    let t = s.take(k + 1);
    assert(t.drop_last() =~= s.take(k));
    assert(t.last() == s[k]);
}

/// Whatever a filter kept was in the original sequence and satisfies the
/// predicate.
pub proof fn lemma_filter_in_original<A>(s: Seq<A>, pred: spec_fn(A) -> bool, x: A)
    requires
        s.filter(pred).contains(x),
    ensures
        s.contains(x),
        pred(x),
    decreases s.len(),
{
    reveal(Seq::filter);
    if s.len() > 0 {
        let sub = s.drop_last().filter(pred);
        if pred(s.last()) && x == s.last() {
            assert(s[s.len() - 1] == x);
        } else {
            let j = choose|j: int| 0 <= j < s.filter(pred).len() && s.filter(pred)[j] == x;
            if pred(s.last()) {
                assert(s.filter(pred) == sub.push(s.last()));
                assert(j < sub.len());
                assert(sub[j] == x);
            }
            assert(sub.contains(x));
            lemma_filter_in_original(s.drop_last(), pred, x);
            let i = choose|i: int| 0 <= i < s.drop_last().len() && s.drop_last()[i] == x;
            assert(s[i] == x);
        }
    }
}

/// Filtering out at least one element makes the sequence strictly shorter.
pub proof fn lemma_filter_drops<A>(s: Seq<A>, pred: spec_fn(A) -> bool, i: int)
    requires
        0 <= i < s.len(),
        !pred(s[i]),
    ensures
        s.filter(pred).len() < s.len(),
    decreases s.len(),
{
    reveal(Seq::filter);
    if i == s.len() - 1 {
        s.drop_last().lemma_filter_len(pred);
    } else {
        lemma_filter_drops(s.drop_last(), pred, i);
    }
}

/// An element of the original sequence that satisfies the predicate appears
/// in the filtered sequence.
pub proof fn lemma_filter_keeps<A>(s: Seq<A>, pred: spec_fn(A) -> bool, x: A)
    requires
        s.contains(x),
        pred(x),
    ensures
        s.filter(pred).contains(x),
{
    let i = choose|i: int| 0 <= i < s.len() && s[i] == x;
    s.lemma_filter_contains(pred, i);
}

// ---------------------------------------------------------------------------
// Positions and their flat indices
// ---------------------------------------------------------------------------

pub proof fn lemma_sidx_coord_roundtrip(c: (usize, usize))
    requires
        coord_ok(c),
    ensures
        0 <= sidx(c) < 9,
        coord_of(sidx(c)) == c,
{
    assert((c.1 * 3 + c.0) % 3 == c.0 && (c.1 * 3 + c.0) / 3 == c.1) by (nonlinear_arith)
        requires
            c.0 < 3,
            c.1 < 3,
    ;
}

/// Every on-grid position appears in the fresh game's enumeration of cells.
pub proof fn lemma_all_positions_contains(q: Position)
    requires
        pos_ok(q),
    ensures
        all_positions().contains(q),
{
    lemma_sidx_coord_roundtrip(q.0);
    lemma_sidx_coord_roundtrip(q.1);
    let k = sidx(q.0) * 9 + sidx(q.1);
    assert(0 <= k < 81);
    assert(k / 9 == sidx(q.0) && k % 9 == sidx(q.1)) by (nonlinear_arith)
        requires
            0 <= sidx(q.0) < 9,
            0 <= sidx(q.1) < 9,
            k == sidx(q.0) * 9 + sidx(q.1),
    ;
    assert(all_positions()[k] == q);
}

/// A fresh game is well formed.
pub proof fn lemma_init_wf(starting_player: Player)
    ensures
        view_wf(init_view(starting_player)),
{
    let v = init_view(starting_player);
    assert forall|b: int| 0 <= b < 9 implies #[trigger] v.meta[b] == sub_board_status(
        v.boards[b],
    ) by {
        assert(v.boards[b][4] == BoardSpace::Empty);
    }
    assert(!meta_has_line(v.meta, Player::X) && !meta_has_line(v.meta, Player::O));
    assert(v.meta[0] is Ongoing);
    assert(v.state == meta_status(v.meta));
    assert forall|p: Position| (#[trigger] v.empties.contains(p)) <==> (pos_ok(p)
        && v.meta[sidx(p.0)] is Ongoing && v.boards[sidx(p.0)][sidx(p.1)]
        == BoardSpace::Empty) by {
        if v.empties.contains(p) {
            let k = choose|k: int| 0 <= k < 81 && all_positions()[k] == p;
            lemma_coord_of_sidx(k / 9);
            lemma_coord_of_sidx(k % 9);
        }
        if pos_ok(p) && v.meta[sidx(p.0)] is Ongoing && v.boards[sidx(p.0)][sidx(p.1)]
            == BoardSpace::Empty {
            lemma_all_positions_contains(p);
        }
    }
}

// ---------------------------------------------------------------------------
// The transition preserves well-formedness
// ---------------------------------------------------------------------------

/// A legal placement on a well-formed, still-running game yields a
/// well-formed game again.  This is the heart of the rules engine's safety:
/// it carries every invariant - outcome mirroring, the constraint naming an
/// ongoing sub-board, the empty-cell bookkeeping - across a move.
pub proof fn lemma_step_preserves_wf(v: GameView, meta_pos: (usize, usize), mini_pos: (usize, usize))
    requires
        view_wf(v),
        v.state is Ongoing,
        move_ok(v, meta_pos, mini_pos),
    ensures
        view_wf(step(v, meta_pos, mini_pos)),
{
    let b = sidx(meta_pos);
    let c = sidx(mini_pos);
    let old_cells = v.boards[b];
    let cells = old_cells.update(c, BoardSpace::Taken(v.turn));
    let status = sub_board_status(cells);
    let meta = v.meta.update(b, status);
    let concluded = status is Concluded;
    let w = step(v, meta_pos, mini_pos);
    let pred = keep_after(meta_pos, mini_pos, concluded);

    assert(v.meta[b] == sub_board_status(old_cells));
    assert(!has_line(old_cells, Player::X) && !has_line(old_cells, Player::O));

    // Every meta-board entry still mirrors its sub-board.
    assert forall|i: int| 0 <= i < 9 implies #[trigger] w.meta[i] == sub_board_status(
        w.boards[i],
    ) by {}

    // The overall outcome still mirrors the meta-board.
    if concluded {
        assert(w.state == meta_status(w.meta));
    } else {
        assert(v.meta[b] is Ongoing && status is Ongoing);
        assert(meta =~= v.meta);
        assert(w.state == meta_status(w.meta));
    }

    // The constraint, when present, names an ongoing sub-board.
    assert(match w.next {
        Some(m) => coord_ok(m) && w.meta[sidx(m)] is Ongoing,
        None => true,
    });

    // The empty-cell set still holds exactly the empty cells of ongoing
    // sub-boards.
    assert forall|p: Position| (#[trigger] w.empties.contains(p)) <==> (pos_ok(p)
        && w.meta[sidx(p.0)] is Ongoing && w.boards[sidx(p.0)][sidx(p.1)]
        == BoardSpace::Empty) by {
        if w.empties.contains(p) {
            lemma_filter_in_original(v.empties, pred, p);
            assert(v.empties.contains(p));
            assert(pos_ok(p) && v.meta[sidx(p.0)] is Ongoing && v.boards[sidx(p.0)][sidx(p.1)]
                == BoardSpace::Empty);
            if sidx(p.0) == b {
                assert(!concluded);
                assert(p != (meta_pos, mini_pos));
                lemma_sidx_coord_roundtrip(p.0);
                lemma_sidx_coord_roundtrip(meta_pos);
                assert(p.0 == meta_pos);
                if sidx(p.1) == c {
                    lemma_sidx_coord_roundtrip(p.1);
                    lemma_sidx_coord_roundtrip(mini_pos);
                    assert(p.1 == mini_pos);
                    assert(false);
                }
                assert(w.boards[sidx(p.0)][sidx(p.1)] == BoardSpace::Empty);
            } else {
                assert(w.meta[sidx(p.0)] == v.meta[sidx(p.0)]);
                assert(w.boards[sidx(p.0)] == v.boards[sidx(p.0)]);
            }
        }
        if pos_ok(p) && w.meta[sidx(p.0)] is Ongoing && w.boards[sidx(p.0)][sidx(p.1)]
            == BoardSpace::Empty {
            if sidx(p.0) == b {
                assert(w.meta[b] == status);
                assert(!concluded);
                lemma_sidx_coord_roundtrip(p.0);
                lemma_sidx_coord_roundtrip(meta_pos);
                assert(p.0 == meta_pos);
                if sidx(p.1) == c {
                    assert(w.boards[b][c] == BoardSpace::Taken(v.turn));
                    assert(false);
                }
                assert(v.boards[b][sidx(p.1)] == cells[sidx(p.1)]);
                assert(v.empties.contains(p));
                lemma_sidx_coord_roundtrip(p.1);
                lemma_sidx_coord_roundtrip(mini_pos);
                assert(pred(p));
            } else {
                assert(v.meta[sidx(p.0)] == w.meta[sidx(p.0)]);
                assert(v.boards[sidx(p.0)] == w.boards[sidx(p.0)]);
                assert(v.empties.contains(p));
                lemma_sidx_coord_roundtrip(p.0);
                lemma_sidx_coord_roundtrip(meta_pos);
                assert(pred(p));
            }
            lemma_filter_keeps(v.empties, pred, p);
        }
    }
}

// ---------------------------------------------------------------------------
// The full game state
// ---------------------------------------------------------------------------

/// The full nested board: nine sub-boards, the meta-board of their outcomes,
/// the constraint on the next move, whose turn it is, the overall outcome,
/// and the set of playable empty cells, kept incrementally for fast move
/// enumeration.
pub struct GameState {
    pub mini_boards: Vec<Board>,
    pub meta_board: Vec<BoardState>,
    pub next_meta_move: Option<(usize, usize)>,
    pub board_state: BoardState,
    pub turn: Player,
    empty_spaces: Vec<Position>,
}

impl View for GameState {
    type V = GameView;

    closed spec fn view(&self) -> GameView {
        GameView {
            boards: self.mini_boards@.map_values(|bd: Board| bd@),
            meta: self.meta_board@,
            next: self.next_meta_move,
            state: self.board_state,
            turn: self.turn,
            empties: self.empty_spaces@,
        }
    }
}

impl Clone for GameState {
    fn clone(&self) -> (r: Self)
        ensures
            r@ == self@,
            self.inv() ==> r.inv(),
    {
        let mut boards: Vec<Board> = Vec::new();
        let mut i: usize = 0;
        while i < self.mini_boards.len()
            invariant
                i <= self.mini_boards@.len(),
                boards@.len() == i,
                forall|b: int|
                    0 <= b < i ==> (#[trigger] boards@[b])@ == self.mini_boards@[b]@ && (
                    self.mini_boards@[b].counts_ok() ==> boards@[b].counts_ok()),
            decreases self.mini_boards@.len() - i,
        {
            boards.push(self.mini_boards[i].clone());
            i = i + 1;
        }
        let mut meta: Vec<BoardState> = Vec::new();
        let mut i: usize = 0;
        while i < self.meta_board.len()
            invariant
                i <= self.meta_board@.len(),
                meta@ == self.meta_board@.take(i as int),
            decreases self.meta_board@.len() - i,
        {
            meta.push(self.meta_board[i]);
            proof {
                assert(meta@ =~= self.meta_board@.take(i + 1));
            }
            i = i + 1;
        }
        let mut empties: Vec<Position> = Vec::new();
        let mut i: usize = 0;
        while i < self.empty_spaces.len()
            invariant
                i <= self.empty_spaces@.len(),
                empties@ == self.empty_spaces@.take(i as int),
            decreases self.empty_spaces@.len() - i,
        {
            empties.push(self.empty_spaces[i]);
            proof {
                assert(empties@ =~= self.empty_spaces@.take(i + 1));
            }
            i = i + 1;
        }
        let r = GameState {
            mini_boards: boards,
            meta_board: meta,
            next_meta_move: self.next_meta_move,
            board_state: self.board_state,
            turn: self.turn,
            empty_spaces: empties,
        };
        proof {
            assert(meta@ =~= self.meta_board@);
            assert(empties@ =~= self.empty_spaces@);
            assert(r@.boards =~~= self@.boards);
            assert(r@ =~~= self@);
        }
        r
    }
}

impl GameState {
    /// Every sub-board's cached mark counts agree with its cells.
    pub closed spec fn caches_ok(self) -> bool {
        forall|b: int|
            0 <= b < self.mini_boards@.len() ==> (#[trigger] self.mini_boards@[b]).counts_ok()
    }

    /// The state's internal invariant: the counts caches are right and the
    /// state's mathematical value is well formed.
    pub open spec fn inv(self) -> bool {
        &&& self.caches_ok()
        &&& view_wf(self@)
    }

    /// A fresh game with all cells empty and `starting_player` to move.
    pub fn new(starting_player: Player) -> (r: GameState)
        ensures
            r.inv(),
            r@ == init_view(starting_player),
    {
        let mut boards: Vec<Board> = Vec::new();
        let mut i: usize = 0;
        while i < 9
            invariant
                i <= 9,
                boards@.len() == i,
                forall|b: int|
                    0 <= b < i ==> (#[trigger] boards@[b]).counts_ok() && boards@[b]@ == Seq::new(
                        9,
                        |c: int| BoardSpace::Empty,
                    ),
            decreases 9 - i,
        {
            boards.push(Board::new());
            i = i + 1;
        }
        let meta: Vec<BoardState> = vec![BoardState::Ongoing; 9];
        let mut empties: Vec<Position> = Vec::new();
        let mut k: usize = 0;
        while k < 81
            invariant
                k <= 81,
                empties@ == all_positions().take(k as int),
            decreases 81 - k,
        {
            let bi = k / 9;
            let ci = k % 9;
            empties.push(((bi % 3, bi / 3), (ci % 3, ci / 3)));
            proof {
                assert(all_positions()[k as int] == ((bi % 3, bi / 3), (ci % 3, ci / 3)));
                assert(empties@ =~= all_positions().take(k + 1));
            }
            k = k + 1;
        }
        let r = GameState {
            mini_boards: boards,
            meta_board: meta,
            next_meta_move: None,
            board_state: BoardState::Ongoing,
            turn: starting_player,
            empty_spaces: empties,
        };
        proof {
            assert(meta@ =~= Seq::new(9, |b: int| BoardState::Ongoing));
            assert(empties@ =~= all_positions());
            assert(r@.boards =~~= init_view(starting_player).boards);
            assert(r@ =~~= init_view(starting_player));
            lemma_init_wf(starting_player);
        }
        r
    }

    /// Reassembles a game state from its parts.  The mathematical value is
    /// exactly the parts' values; nothing is checked beyond the counts
    /// caches, which the caller supplies through `Board::from_cells`.
    pub(crate) fn from_parts(
        mini_boards: Vec<Board>,
        meta_board: Vec<BoardState>,
        next_meta_move: Option<(usize, usize)>,
        board_state: BoardState,
        turn: Player,
        empty_spaces: Vec<Position>,
    ) -> (g: GameState)
        ensures
            g@.boards == mini_boards@.map_values(|bd: Board| bd@),
            g@.meta == meta_board@,
            g@.next == next_meta_move,
            g@.state == board_state,
            g@.turn == turn,
            g@.empties == empty_spaces@,
            (forall|b: int|
                0 <= b < mini_boards@.len() ==> (#[trigger] mini_boards@[b]).counts_ok())
                ==> g.caches_ok(),
    {
        GameState { mini_boards, meta_board, next_meta_move, board_state, turn, empty_spaces }
    }

    /// The positions of all empty cells of ongoing sub-boards, in the order
    /// the engine keeps them.
    pub fn empty_positions(&self) -> (r: &Vec<Position>)
        ensures
            r@ == self@.empties,
    {
        &self.empty_spaces
    }

    /// The cell at `mini_pos` of the sub-board `meta_pos`.
    pub fn cell_at(&self, meta_pos: (usize, usize), mini_pos: (usize, usize)) -> (r: BoardSpace)
        requires
            coord_ok(meta_pos),
            coord_ok(mini_pos),
            self@.boards.len() == 9,
            self@.boards[sidx(meta_pos)].len() == 9,
        ensures
            r == self@.boards[sidx(meta_pos)][sidx(mini_pos)],
    {
        self.mini_boards[meta_pos.1 * 3 + meta_pos.0].get_space(mini_pos)
    }

    /// The outcome recorded for the sub-board `pos` on the meta-board.
    pub fn meta_at(&self, pos: (usize, usize)) -> (r: BoardState)
        requires
            coord_ok(pos),
            self@.meta.len() == 9,
        ensures
            r == self@.meta[sidx(pos)],
    {
        self.meta_board[pos.1 * 3 + pos.0]
    }

    /// The overall outcome of the game.
    pub fn state(&self) -> (r: BoardState)
        ensures
            r == self@.state,
    {
        self.board_state
    }

    /// The player whose turn it is.
    pub fn turn(&self) -> (r: Player)
        ensures
            r == self@.turn,
    {
        self.turn
    }

    /// The sub-board the next move is constrained to, if any.
    pub fn next_board(&self) -> (r: Option<(usize, usize)>)
        ensures
            r == self@.next,
    {
        self.next_meta_move
    }

    /// Whether three given meta-board cells all record a win for `p`.
    fn meta_line3(&self, a: usize, b: usize, c: usize, p: Player) -> (r: bool)
        requires
            self@.meta.len() == 9,
            a < 9,
            b < 9,
            c < 9,
        ensures
            r == meta_triple(self@.meta, p, a as int, b as int, c as int),
    {
        let w = BoardState::Concluded(
            match p {
                Player::X => BoardResult::XWin,
                Player::O => BoardResult::OWin,
            },
        );
        proof {
            assert(w == BoardState::Concluded(p.win()));
        }
        self.meta_board[a] == w && self.meta_board[b] == w && self.meta_board[c] == w
    }

    /// Whether `p` owns a meta-board line.
    fn meta_has_line_of(&self, p: Player) -> (r: bool)
        requires
            self@.meta.len() == 9,
        ensures
            r == meta_has_line(self@.meta, p),
    {
        self.meta_line3(0, 1, 2, p) || self.meta_line3(3, 4, 5, p) || self.meta_line3(6, 7, 8, p)
            || self.meta_line3(0, 3, 6, p) || self.meta_line3(1, 4, 7, p) || self.meta_line3(
            2,
            5,
            8,
            p,
        ) || self.meta_line3(0, 4, 8, p) || self.meta_line3(2, 4, 6, p)
    }

    /// The whole game's status as the meta-board alone determines it.
    fn meta_status_now(&self) -> (r: BoardState)
        requires
            self@.meta.len() == 9,
        ensures
            r == meta_status(self@.meta),
    {
        if self.meta_has_line_of(Player::X) {
            return BoardState::Concluded(BoardResult::XWin);
        }
        if self.meta_has_line_of(Player::O) {
            return BoardState::Concluded(BoardResult::OWin);
        }
        let mut i: usize = 0;
        while i < 9
            invariant
                i <= 9,
                self@.meta.len() == 9,
                !meta_has_line(self@.meta, Player::X),
                !meta_has_line(self@.meta, Player::O),
                forall|j: int| 0 <= j < i ==> self@.meta[j] is Concluded,
            decreases 9 - i,
        {
            if matches!(self.meta_board[i], BoardState::Ongoing) {
                return BoardState::Ongoing;
            }
            i = i + 1;
        }
        BoardState::Concluded(BoardResult::Tie)
    }

    /// Whether the empty-cell set holds `p`, decided by scanning.
    fn contains_position(&self, p: Position) -> (r: bool)
        ensures
            r == self@.empties.contains(p),
    {
        let mut k: usize = 0;
        while k < self.empty_spaces.len()
            invariant
                k <= self@.empties.len(),
                forall|j: int| 0 <= j < k ==> self@.empties[j] != p,
            decreases self@.empties.len() - k,
        {
            let q = self.empty_spaces[k];
            if q.0.0 == p.0.0 && q.0.1 == p.0.1 && q.1.0 == p.1.0 && q.1.1 == p.1.1 {
                proof {
                    assert(self@.empties[k as int] == p);
                }
                return true;
            }
            k = k + 1;
        }
        proof {
            if self@.empties.contains(p) {
                let j = choose|j: int| 0 <= j < self@.empties.len() && self@.empties[j] == p;
                assert(false);
            }
        }
        false
    }

    /// Whether the state is well formed, decided at runtime: exactly the
    /// invariant `inv`.  Lets unverified callers - a deserializer, a
    /// transport boundary - test a state before handing it to the functions
    /// that require the invariant.
    pub fn is_well_formed(&self) -> (r: bool)
        ensures
            r == self.inv(),
    {
        if self.mini_boards.len() != 9 || self.meta_board.len() != 9 {
            return false;
        }
        let mut b: usize = 0;
        while b < 9
            invariant
                b <= 9,
                self@.boards.len() == 9,
                self@.meta.len() == 9,
                self.mini_boards@.len() == 9,
                forall|j: int|
                    0 <= j < b ==> (#[trigger] self.mini_boards@[j]).counts_ok()
                        && self@.boards[j].len() == 9 && self@.meta[j] == sub_board_status(
                        self@.boards[j],
                    ),
            decreases 9 - b,
        {
            let bd = &self.mini_boards[b];
            if !bd.counts_valid() {
                proof {
                    if self.caches_ok() {
                        assert(self.mini_boards@[b as int].counts_ok());
                    }
                }
                return false;
            }
            let st = bd.status_of();
            proof {
                assert(self.mini_boards@[b as int]@ == self@.boards[b as int]);
            }
            if self.meta_board[b] != st {
                proof {
                    assert(self@.meta[b as int] != sub_board_status(self@.boards[b as int]));
                    assert(!view_wf(self@));
                }
                return false;
            }
            b = b + 1;
        }
        let mut i: usize = 0;
        while i < self.empty_spaces.len()
            invariant
                i <= self@.empties.len(),
                self@.boards.len() == 9,
                self@.meta.len() == 9,
                self.mini_boards@.len() == 9,
                forall|j: int|
                    0 <= j < 9 ==> (#[trigger] self.mini_boards@[j]).counts_ok()
                        && self@.boards[j].len() == 9 && self@.meta[j] == sub_board_status(
                        self@.boards[j],
                    ),
                forall|j: int| 0 <= j < i ==> playable(self@, #[trigger] self@.empties[j]),
            decreases self@.empties.len() - i,
        {
            let p = self.empty_spaces[i];
            proof {
                assert(self@.empties[i as int] == p);
                assert(self@.empties.contains(p));
            }
            if p.0.0 >= 3 || p.0.1 >= 3 || p.1.0 >= 3 || p.1.1 >= 3 {
                proof {
                    if view_wf(self@) {
                        assert(playable(self@, p));
                    }
                }
                return false;
            }
            let bidx = p.0.1 * 3 + p.0.0;
            if matches!(self.meta_board[bidx], BoardState::Concluded(_)) || !matches!(
                self.mini_boards[bidx].get_space(p.1),
                BoardSpace::Empty,
            ) {
                proof {
                    if view_wf(self@) {
                        assert(playable(self@, p));
                    }
                }
                return false;
            }
            i = i + 1;
        }
        let mut k: usize = 0;
        while k < 81
            invariant
                k <= 81,
                self@.boards.len() == 9,
                self@.meta.len() == 9,
                self.mini_boards@.len() == 9,
                forall|j: int|
                    0 <= j < 9 ==> (#[trigger] self.mini_boards@[j]).counts_ok()
                        && self@.boards[j].len() == 9 && self@.meta[j] == sub_board_status(
                        self@.boards[j],
                    ),
                forall|j: int|
                    0 <= j < self@.empties.len() ==> playable(self@, #[trigger] self@.empties[j]),
                forall|k2: int|
                    0 <= k2 < k ==> (playable(self@, #[trigger] flat_pos(k2))
                        ==> self@.empties.contains(flat_pos(k2))),
            decreases 81 - k,
        {
            let bi = k / 9;
            let ci = k % 9;
            proof {
                lemma_coord_of_sidx(bi as int);
                lemma_coord_of_sidx(ci as int);
                assert(flat_pos(k as int) == (coord_of(bi as int), coord_of(ci as int)));
            }
            if matches!(self.meta_board[bi], BoardState::Ongoing) && matches!(
                self.mini_boards[bi].get_space(((ci % 3), (ci / 3))),
                BoardSpace::Empty,
            ) {
                let p: Position = ((bi % 3, bi / 3), (ci % 3, ci / 3));
                proof {
                    assert(p == flat_pos(k as int));
                    assert(playable(self@, p));
                }
                if !self.contains_position(p) {
                    proof {
                        if view_wf(self@) {
                            assert(self@.empties.contains(p));
                        }
                    }
                    return false;
                }
            } else {
                proof {
                    assert(!playable(self@, flat_pos(k as int)));
                }
            }
            k = k + 1;
        }
        if let Some(m) = self.next_meta_move {
            if m.0 >= 3 || m.1 >= 3 {
                return false;
            }
            if matches!(self.meta_board[m.1 * 3 + m.0], BoardState::Concluded(_)) {
                return false;
            }
        }
        let overall = self.meta_status_now();
        if self.board_state != overall {
            return false;
        }
        proof {
            assert(self.caches_ok());
            assert forall|p: Position| (#[trigger] self@.empties.contains(p)) <==> playable(
                self@,
                p,
            ) by {
                if self@.empties.contains(p) {
                    let j = choose|j: int|
                        0 <= j < self@.empties.len() && self@.empties[j] == p;
                    assert(playable(self@, self@.empties[j]));
                }
                if playable(self@, p) {
                    lemma_sidx_coord_roundtrip(p.0);
                    lemma_sidx_coord_roundtrip(p.1);
                    let k2 = sidx(p.0) * 9 + sidx(p.1);
                    assert(0 <= k2 < 81);
                    assert(k2 / 9 == sidx(p.0) && k2 % 9 == sidx(p.1)) by (nonlinear_arith)
                        requires
                            0 <= sidx(p.0) < 9,
                            0 <= sidx(p.1) < 9,
                            k2 == sidx(p.0) * 9 + sidx(p.1),
                    ;
                    assert(flat_pos(k2) == p);
                    assert(self@.empties.contains(flat_pos(k2)));
                }
            }
            assert(view_wf(self@));
        }
        true
    }

    /// The one mutator of the rules engine.  Marks the cell `mini_pos` of
    /// the sub-board `meta_pos` for the player whose turn it is, re-derives
    /// that sub-board's outcome and, when it concluded, the overall outcome,
    /// purges the empty-cell set, points the constraint at the sub-board
    /// matching the cell just played unless that one is over, and flips the
    /// turn.  Refuses, changing nothing, any move the rules do not allow:
    /// one after the game concluded, outside the required sub-board, into a
    /// concluded sub-board, or onto a taken cell.
    pub fn place(&mut self, meta_pos: (usize, usize), mini_pos: (usize, usize)) -> (r: Result<
        BoardState,
        InvalidMoveError,
    >)
        requires
            old(self).inv(),
            coord_ok(meta_pos),
            coord_ok(mini_pos),
        ensures
            final(self).inv(),
            r is Ok <==> (old(self)@.state is Ongoing && move_ok(old(self)@, meta_pos, mini_pos)),
            r is Err ==> *final(self) == *old(self),
            r is Ok ==> final(self)@ == step(old(self)@, meta_pos, mini_pos),
            r is Ok ==> r == Ok::<BoardState, InvalidMoveError>(final(self)@.state),
    {
        if matches!(self.board_state, BoardState::Concluded(_)) {
            return Err(InvalidMoveError);
        }
        if let Some(m) = self.next_meta_move {
            if !(m.0 == meta_pos.0 && m.1 == meta_pos.1) {
                return Err(InvalidMoveError);
            }
        }
        let b = meta_pos.1 * 3 + meta_pos.0;
        if matches!(self.meta_board[b], BoardState::Concluded(_)) {
            return Err(InvalidMoveError);
        }
        if !matches!(self.mini_boards[b].get_space(mini_pos), BoardSpace::Empty) {
            return Err(InvalidMoveError);
        }
        let ghost v = self@;
        let player = self.turn;
        let bd = &mut self.mini_boards[b];
        let res = bd.place(mini_pos, player);
        let mini_result = match res {
            Ok(s) => s,
            Err(_) => {
                proof {
                    assert(false);
                }
                return Err(InvalidMoveError);
            },
        };
        proof {
            let cells = v.boards[sidx(meta_pos)].update(sidx(mini_pos), BoardSpace::Taken(v.turn));
            assert(self.mini_boards@[b as int]@ == cells);
            lemma_check_at_is_status(v.boards[sidx(meta_pos)], cells, mini_pos, v.turn);
            assert(mini_result == sub_board_status(cells));
        }
        self.turn = player.switch();
        self.meta_board[b] = mini_result;
        let concluded = matches!(mini_result, BoardState::Concluded(_));
        let mut kept: Vec<Position> = Vec::new();
        let mut k: usize = 0;
        while k < self.empty_spaces.len()
            invariant
                k <= self.empty_spaces@.len(),
                kept@ == self.empty_spaces@.take(k as int).filter(
                    keep_after(meta_pos, mini_pos, concluded),
                ),
            decreases self.empty_spaces@.len() - k,
        {
            let p = self.empty_spaces[k];
            proof {
                lemma_filter_take_step(
                    self.empty_spaces@,
                    keep_after(meta_pos, mini_pos, concluded),
                    k as int,
                );
            }
            let keep = if concluded {
                !(p.0.0 == meta_pos.0 && p.0.1 == meta_pos.1)
            } else {
                !(p.0.0 == meta_pos.0 && p.0.1 == meta_pos.1 && p.1.0 == mini_pos.0 && p.1.1
                    == mini_pos.1)
            };
            proof {
                assert(keep == keep_after(meta_pos, mini_pos, concluded)(p));
            }
            if keep {
                kept.push(p);
            }
            k = k + 1;
        }
        proof {
            assert(self.empty_spaces@.take(self.empty_spaces@.len() as int) =~= self.empty_spaces@);
            assert(kept@ == purge_empties(v.empties, meta_pos, mini_pos, concluded));
        }
        self.empty_spaces = kept;
        let nb = mini_pos.1 * 3 + mini_pos.0;
        if matches!(self.meta_board[nb], BoardState::Ongoing) {
            self.next_meta_move = Some(mini_pos);
        } else {
            self.next_meta_move = None;
        }
        let result: BoardState;
        if concluded {
            let overall = self.check_wins(meta_pos);
            self.board_state = overall;
            result = overall;
        } else {
            result = BoardState::Ongoing;
        }
        proof {
            let w = step(v, meta_pos, mini_pos);
            let cells = v.boards[sidx(meta_pos)].update(sidx(mini_pos), BoardSpace::Taken(v.turn));
            assert(self@.boards =~~= w.boards);
            assert(self@.meta =~= w.meta);
            if concluded {
                assert(meta_status(v.meta) is Ongoing);
                let outcome = mini_result->Concluded_0;
                lemma_meta_check_at_is_status(
                    v.meta,
                    v.meta.update(sidx(meta_pos), mini_result),
                    meta_pos,
                    outcome,
                );
                assert(self@.state == meta_status(w.meta));
            }
            assert(self@ =~~= w);
            lemma_step_preserves_wf(v, meta_pos, mini_pos);
            assert(self.caches_ok());
        }
        Ok(result)
    }

    /// The moves the rules currently allow: the maintained empty-cell set,
    /// filtered by the constraint on the next sub-board when one is in
    /// force.
    pub fn get_possible_moves(&self) -> (r: Vec<Position>)
        ensures
            r@ == constrained_moves(self@),
    {
        let mut out: Vec<Position> = Vec::new();
        let mut k: usize = 0;
        match self.next_meta_move {
            Some(m) => {
                while k < self.empty_spaces.len()
                    invariant
                        k <= self.empty_spaces@.len(),
                        self.next_meta_move == Some(m),
                        out@ == self.empty_spaces@.take(k as int).filter(in_board(m)),
                    decreases self.empty_spaces@.len() - k,
                {
                    let p = self.empty_spaces[k];
                    proof {
                        lemma_filter_take_step(self.empty_spaces@, in_board(m), k as int);
                    }
                    if p.0.0 == m.0 && p.0.1 == m.1 {
                        out.push(p);
                    }
                    k = k + 1;
                }
                proof {
                    assert(self.empty_spaces@.take(self.empty_spaces@.len() as int)
                        =~= self.empty_spaces@);
                }
            },
            None => {
                while k < self.empty_spaces.len()
                    invariant
                        k <= self.empty_spaces@.len(),
                        out@ == self.empty_spaces@.take(k as int),
                    decreases self.empty_spaces@.len() - k,
                {
                    out.push(self.empty_spaces[k]);
                    proof {
                        assert(out@ =~= self.empty_spaces@.take(k + 1));
                    }
                    k = k + 1;
                }
                proof {
                    assert(self.empty_spaces@.take(self.empty_spaces@.len() as int)
                        =~= self.empty_spaces@);
                }
            },
        }
        out
    }

    /// The status of the whole game as seen from the meta-board cell `pos`:
    /// sums the signed outcomes along the meta-board row and column through
    /// `pos` and both diagonals, and reports a tie when every sub-board has
    /// concluded.
    #[verifier::rlimit(30)]
    pub fn check_wins(&self, pos: (usize, usize)) -> (r: BoardState)
        requires
            coord_ok(pos),
            self@.meta.len() == 9,
        ensures
            r == meta_check_at(self@.meta, pos),
    {
        let x = pos.0;
        let y = pos.1;
        let row = state_sign(self.meta_board[3 * y]) + state_sign(self.meta_board[3 * y + 1])
            + state_sign(self.meta_board[3 * y + 2]);
        let col = state_sign(self.meta_board[x]) + state_sign(self.meta_board[x + 3]) + state_sign(
            self.meta_board[x + 6],
        );
        let diag = state_sign(self.meta_board[0]) + state_sign(self.meta_board[4]) + state_sign(
            self.meta_board[8],
        );
        let rdiag = state_sign(self.meta_board[2]) + state_sign(self.meta_board[4]) + state_sign(
            self.meta_board[6],
        );
        proof {
            let ms = self@.meta;
            let xi = pos.0 as int;
            let yi = pos.1 as int;
            lemma_state_sign_sum3(ms[3 * yi], ms[3 * yi + 1], ms[3 * yi + 2]);
            lemma_state_sign_sum3(ms[xi], ms[xi + 3], ms[xi + 6]);
            lemma_state_sign_sum3(ms[0], ms[4], ms[8]);
            lemma_state_sign_sum3(ms[2], ms[4], ms[6]);
        }
        if row == 3 || col == 3 || diag == 3 || rdiag == 3 {
            return BoardState::Concluded(BoardResult::XWin);
        }
        if row == -3 || col == -3 || diag == -3 || rdiag == -3 {
            return BoardState::Concluded(BoardResult::OWin);
        }
        let mut all = true;
        let mut i: usize = 0;
        while i < 9
            invariant
                i <= 9,
                self@.meta.len() == 9,
                all == (forall|j: int| 0 <= j < i ==> self@.meta[j] is Concluded),
            decreases 9 - i,
        {
            if matches!(self.meta_board[i], BoardState::Ongoing) {
                all = false;
            }
            i = i + 1;
        }
        if all {
            BoardState::Concluded(BoardResult::Tie)
        } else {
            BoardState::Ongoing
        }
    }
}

impl GameState {
    /// The icon shown for the cell `mini_pos` of the sub-board `meta_pos`:
    /// while the sub-board is being played (or tied) the cell's own mark,
    /// and over a won sub-board the matching fragment of a big X or O drawn
    /// across the whole sub-board.
    pub fn get_icon(&self, meta_pos: (usize, usize), mini_pos: (usize, usize)) -> (r:
        &'static str)
        requires
            coord_ok(meta_pos),
            coord_ok(mini_pos),
            self@.meta.len() == 9,
            self@.boards.len() == 9,
            self@.boards[sidx(meta_pos)].len() == 9,
        ensures
            r@ == icon_spec(self@, meta_pos, mini_pos),
    {
        let b = meta_pos.1 * 3 + meta_pos.0;
        match self.meta_board[b] {
            BoardState::Concluded(BoardResult::XWin) => big_x_fragment(mini_pos),
            BoardState::Concluded(BoardResult::OWin) => big_o_fragment(mini_pos),
            _ => {
                let bd = &self.mini_boards[b];
                match bd.get_space(mini_pos) {
                    BoardSpace::Empty => " ",
                    BoardSpace::Taken(Player::X) => "X",
                    BoardSpace::Taken(Player::O) => "O",
                }
            },
        }
    }
}

/// What `get_icon` shows, as a specification.
pub open spec fn icon_spec(v: GameView, meta_pos: (usize, usize), mini_pos: (usize, usize)) -> Seq<
    char,
> {
    match v.meta[sidx(meta_pos)] {
        BoardState::Concluded(BoardResult::XWin) => big_x_spec(mini_pos),
        BoardState::Concluded(BoardResult::OWin) => big_o_spec(mini_pos),
        _ => match v.boards[sidx(meta_pos)][sidx(mini_pos)] {
            BoardSpace::Empty => " "@,
            BoardSpace::Taken(Player::X) => "X"@,
            BoardSpace::Taken(Player::O) => "O"@,
        },
    }
}

/// The fragment of a big X at the cell `c` of a won sub-board.
pub open spec fn big_x_spec(c: (usize, usize)) -> Seq<char> {
    if c == (1usize, 1usize) {
        "X"@
    } else if c == (0usize, 0usize) || c == (2usize, 2usize) {
        "\\"@
    } else if c == (2usize, 0usize) || c == (0usize, 2usize) {
        "/"@
    } else {
        " "@
    }
}

/// The fragment of a big O at the cell `c` of a won sub-board.
pub open spec fn big_o_spec(c: (usize, usize)) -> Seq<char> {
    if c == (1usize, 1usize) {
        "O"@
    } else if c == (0usize, 0usize) || c == (2usize, 2usize) {
        "/"@
    } else if c == (2usize, 0usize) || c == (0usize, 2usize) {
        "\\"@
    } else if c == (1usize, 0usize) || c == (1usize, 2usize) {
        "-"@
    } else {
        "|"@
    }
}

fn big_x_fragment(c: (usize, usize)) -> (r: &'static str)
    ensures
        r@ == big_x_spec(c),
{
    if c.0 == 1 && c.1 == 1 {
        "X"
    } else if (c.0 == 0 && c.1 == 0) || (c.0 == 2 && c.1 == 2) {
        "\\"
    } else if (c.0 == 2 && c.1 == 0) || (c.0 == 0 && c.1 == 2) {
        "/"
    } else {
        " "
    }
}

fn big_o_fragment(c: (usize, usize)) -> (r: &'static str)
    ensures
        r@ == big_o_spec(c),
{
    if c.0 == 1 && c.1 == 1 {
        "O"
    } else if (c.0 == 0 && c.1 == 0) || (c.0 == 2 && c.1 == 2) {
        "/"
    } else if (c.0 == 2 && c.1 == 0) || (c.0 == 0 && c.1 == 2) {
        "\\"
    } else if (c.0 == 1 && c.1 == 0) || (c.0 == 1 && c.1 == 2) {
        "-"
    } else {
        "|"
    }
}

// ---------------------------------------------------------------------------
// Facts about the legal-move list
// ---------------------------------------------------------------------------

/// Whatever `get_possible_moves` hands out is a move the rules accept.  The
/// search engines rely on this: a move drawn from the engine's own
/// enumeration never fails to place.
pub proof fn lemma_move_from_list(v: GameView, p: Position)
    requires
        view_wf(v),
        constrained_moves(v).contains(p),
    ensures
        move_ok(v, p.0, p.1),
{
    match v.next {
        Some(m) => {
            lemma_filter_in_original(v.empties, in_board(m), p);
            assert(v.empties.contains(p));
        },
        None => {
            assert(v.empties.contains(p));
        },
    }
}

/// While the game is running there is always at least one legal move: the
/// constraint only ever names an ongoing sub-board, an ongoing sub-board has
/// an empty cell, and a running game has an ongoing sub-board.
pub proof fn lemma_moves_nonempty(v: GameView)
    requires
        view_wf(v),
        v.state is Ongoing,
    ensures
        constrained_moves(v).len() > 0,
{
    match v.next {
        Some(m) => {
            let b = sidx(m);
            assert(v.meta[b] == sub_board_status(v.boards[b]));
            assert(!is_full(v.boards[b]));
            let c = choose|c: int| 0 <= c < 9 && v.boards[b][c] == BoardSpace::Empty;
            lemma_coord_of_sidx(c);
            let p = (m, coord_of(c));
            assert(v.empties.contains(p));
            lemma_filter_keeps(v.empties, in_board(m), p);
            let i = choose|i: int|
                0 <= i < constrained_moves(v).len() && constrained_moves(v)[i] == p;
            assert(constrained_moves(v).len() > 0);
        },
        None => {
            assert(meta_status(v.meta) is Ongoing);
            assert(!meta_all_concluded(v.meta));
            let b = choose|b: int| 0 <= b < 9 && !(v.meta[b] is Concluded);
            assert(v.meta[b] == sub_board_status(v.boards[b]));
            assert(!is_full(v.boards[b]));
            let c = choose|c: int| 0 <= c < 9 && v.boards[b][c] == BoardSpace::Empty;
            lemma_coord_of_sidx(b);
            lemma_coord_of_sidx(c);
            let p = (coord_of(b), coord_of(c));
            assert(v.empties.contains(p));
            let i = choose|i: int| 0 <= i < v.empties.len() && v.empties[i] == p;
            assert(constrained_moves(v).len() > 0);
        },
    }
}

/// The sequence `ms` is a maximal legal play from `v` ending the game with
/// outcome `r`: either the game has already concluded with `r` and no
/// moves remain, or it is running, the first move is one the rules allow,
/// and the rest of the sequence plays out from the stepped state.
pub open spec fn play_reaches(v: GameView, ms: Seq<Position>, r: BoardResult) -> bool
    decreases ms.len(),
{
    if ms.len() == 0 {
        v.state == BoardState::Concluded(r)
    } else {
        &&& v.state is Ongoing
        &&& constrained_moves(v).contains(ms[0])
        &&& play_reaches(step(v, ms[0].0, ms[0].1), ms.drop_first(), r)
    }
}

/// Some maximal legal play from `v` ends the game with outcome `r`.  On a
/// concluded state this holds exactly of its own outcome.
pub open spec fn reaches(v: GameView, r: BoardResult) -> bool {
    exists|ms: Seq<Position>| play_reaches(v, ms, r)
}

/// Whatever outcome legal play reaches after a legal move is reached from
/// the state the move was played in.
pub proof fn lemma_reaches_extend(v: GameView, p: Position, r: BoardResult)
    requires
        v.state is Ongoing,
        constrained_moves(v).contains(p),
        reaches(step(v, p.0, p.1), r),
    ensures
        reaches(v, r),
{
    let ms = choose|ms: Seq<Position>| play_reaches(step(v, p.0, p.1), ms, r);
    let ms2 = seq![p] + ms;
    assert(ms2.drop_first() =~= ms);
    assert(ms2[0] == p);
    assert(play_reaches(v, ms2, r));
}

/// A legal placement strictly shrinks the empty-cell set: the cell just
/// played leaves it.  This is what bounds every playout and search descent.
pub proof fn lemma_step_shrinks_empties(v: GameView, meta_pos: (usize, usize), mini_pos: (
    usize,
    usize,
))
    requires
        view_wf(v),
        move_ok(v, meta_pos, mini_pos),
    ensures
        step(v, meta_pos, mini_pos).empties.len() < v.empties.len(),
{
    let mv = (meta_pos, mini_pos);
    assert(v.empties.contains(mv));
    let i = choose|i: int| 0 <= i < v.empties.len() && v.empties[i] == mv;
    let concluded = sub_board_status(
        v.boards[sidx(meta_pos)].update(sidx(mini_pos), BoardSpace::Taken(v.turn)),
    ) is Concluded;
    assert(!(keep_after(meta_pos, mini_pos, concluded)(mv)));
    lemma_filter_drops(v.empties, keep_after(meta_pos, mini_pos, concluded), i);
}

// ---------------------------------------------------------------------------
// The laws the rules engine guarantees
// ---------------------------------------------------------------------------

/// However a well-formed state came about, a move onto a taken cell or into
/// a concluded sub-board is refused: it is not a legal move, and `place`
/// returns the error and leaves the state untouched on any such attempt.
/// Cells, once taken, are never overwritten, and a concluded sub-board is
/// permanently immutable.
pub proof fn lemma_apply_rejects_overwrites(v: GameView, meta_pos: (usize, usize), mini_pos: (
    usize,
    usize,
))
    requires
        view_wf(v),
        coord_ok(meta_pos),
        coord_ok(mini_pos),
        v.boards[sidx(meta_pos)][sidx(mini_pos)] != BoardSpace::Empty || v.meta[sidx(
            meta_pos,
        )] is Concluded,
    ensures
        !move_ok(v, meta_pos, mini_pos),
{
}

/// A cell, once taken, is never overwritten: a legal move leaves every
/// taken cell exactly as it was.
pub proof fn lemma_taken_cells_persist(
    v: GameView,
    meta_pos: (usize, usize),
    mini_pos: (usize, usize),
    b: int,
    c: int,
)
    requires
        view_wf(v),
        v.state is Ongoing,
        move_ok(v, meta_pos, mini_pos),
        0 <= b < 9,
        0 <= c < 9,
        v.boards[b][c] != BoardSpace::Empty,
    ensures
        step(v, meta_pos, mini_pos).boards[b][c] == v.boards[b][c],
{
}

/// A sub-board's outcome moves from ongoing to concluded at most once and
/// never changes after: a legal move leaves every concluded meta-board
/// entry exactly as it was.
pub proof fn lemma_outcomes_monotonic(
    v: GameView,
    meta_pos: (usize, usize),
    mini_pos: (usize, usize),
    b: int,
)
    requires
        view_wf(v),
        v.state is Ongoing,
        move_ok(v, meta_pos, mini_pos),
        0 <= b < 9,
        v.meta[b] is Concluded,
    ensures
        step(v, meta_pos, mini_pos).meta[b] == v.meta[b],
{
}

/// A sub-board's outcome on the meta-board is exactly what its cells
/// determine, at every reachable state: a win is recorded the instant a
/// three-in-a-row exists, and never before.
pub proof fn lemma_win_detected_exactly(v: GameView, b: int)
    requires
        view_wf(v),
        0 <= b < 9,
    ensures
        v.meta[b] == BoardState::Concluded(BoardResult::XWin) <==> has_line(v.boards[b], Player::X),
        v.meta[b] == BoardState::Concluded(BoardResult::OWin) <==> (has_line(v.boards[b], Player::O)
            && !has_line(v.boards[b], Player::X)),
        v.meta[b] is Ongoing ==> !has_line(v.boards[b], Player::X) && !has_line(
            v.boards[b],
            Player::O,
        ) && !is_full(v.boards[b]),
{
    assert(v.meta[b] == sub_board_status(v.boards[b]));
}

/// After a legal move, the opponent is forced into the sub-board matching
/// the cell just played: when that sub-board is still ongoing every legal
/// move lies in it, and when it has concluded the constraint collapses and
/// the legal moves are all empty cells of ongoing sub-boards.
pub proof fn lemma_next_board_forced(v: GameView, meta_pos: (usize, usize), mini_pos: (
    usize,
    usize,
))
    requires
        view_wf(v),
        v.state is Ongoing,
        move_ok(v, meta_pos, mini_pos),
    ensures
        ({
            let w = step(v, meta_pos, mini_pos);
            &&& (w.meta[sidx(mini_pos)] is Ongoing ==> w.next == Some(mini_pos) && (forall|
                p: Position,
            |
                constrained_moves(w).contains(p) ==> #[trigger] p.0 == mini_pos) && (forall|
                p: Position,
            |
                w.empties.contains(p) && (#[trigger] p.0) == mini_pos ==> constrained_moves(
                    w,
                ).contains(p)))
            &&& (w.meta[sidx(mini_pos)] is Concluded ==> w.next is None && constrained_moves(w)
                == w.empties)
        }),
{
    let w = step(v, meta_pos, mini_pos);
    lemma_step_preserves_wf(v, meta_pos, mini_pos);
    if w.meta[sidx(mini_pos)] is Ongoing {
        assert forall|p: Position| constrained_moves(w).contains(p) implies #[trigger] p.0
            == mini_pos by {
            lemma_filter_in_original(w.empties, in_board(mini_pos), p);
        }
        assert forall|p: Position|
            w.empties.contains(p) && (#[trigger] p.0) == mini_pos implies constrained_moves(
            w,
        ).contains(p) by {
            lemma_filter_keeps(w.empties, in_board(mini_pos), p);
        }
    }
}


/// The sign of a meta-board cell, as an executable value.
fn state_sign(s: BoardState) -> (r: i32)
    ensures
        r == s.sign(),
{
    match s {
        BoardState::Ongoing => 0,
        BoardState::Concluded(res) => res.sign_i32(),
    }
}

/// How a seat at the table is controlled: by local input, by the Monte
/// Carlo tree search, or by a remote player.
#[derive(Copy, Clone, Debug)]
pub enum PlayerType {
    Local,
    Mcts,
    Online,
}

/// A game session: the board, and who controls each side.
pub struct Game {
    pub state: GameState,
    pub x: PlayerType,
    pub o: PlayerType,
}

impl Game {
    /// A fresh session with `starting_player` to move.
    pub fn new(starting_player: Player, x: PlayerType, o: PlayerType) -> (g: Game)
        ensures
            g.state.inv(),
            g.state@ == init_view(starting_player),
            g.x == x,
            g.o == o,
    {
        Game { state: GameState::new(starting_player), x, o }
    }
}

impl Clone for Game {
    fn clone(&self) -> (r: Self)
        ensures
            r.state@ == self.state@,
            self.state.inv() ==> r.state.inv(),
            r.x == self.x,
            r.o == self.o,
    {
        Game { state: self.state.clone(), x: self.x, o: self.o }
    }
}

/// The signed sum of three meta-board cells is 3 exactly when X won all
/// three sub-boards, and -3 exactly when O did.
proof fn lemma_state_sign_sum3(a: BoardState, b: BoardState, c: BoardState)
    ensures
        a.sign() + b.sign() + c.sign() == 3 <==> (a == BoardState::Concluded(BoardResult::XWin)
            && b == BoardState::Concluded(BoardResult::XWin) && c == BoardState::Concluded(
            BoardResult::XWin,
        )),
        a.sign() + b.sign() + c.sign() == -3 <==> (a == BoardState::Concluded(BoardResult::OWin)
            && b == BoardState::Concluded(BoardResult::OWin) && c == BoardState::Concluded(
            BoardResult::OWin,
        )),
{
}

} // verus!
