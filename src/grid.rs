use vstd::prelude::*;
use crate::player::Player;

verus! {

/// A token on a grid: either empty, or filled by one of the players.
#[derive(Copy, Clone, PartialEq, Eq, Structural, Debug)]
pub enum Token {
    Empty,
    Filled(Player),
}

impl Default for Token {
    fn default() -> (r: Token)
        ensures
            r == Token::Empty,
    {
        Token::Empty
    }
}

/// The status of a game after a move.
#[derive(Copy, Clone, PartialEq, Eq, Structural, Debug)]
pub enum Status {
    /// The game is still ongoing.
    OnGoing,
    /// The game has ended in a draw.
    Draw,
    /// The given player has won.
    Win(Player),
}

/// Returned by a drop into a column that has no free cell.
#[derive(Copy, Clone, PartialEq, Eq, Structural, Debug)]
pub struct NoSpaceError();

/// The abstract state of a board: its dimensions, the number of tokens in a row
/// that wins, the cells (column-major, `cells[x][y]`, with `y == 0` at the bottom)
/// and the player who moves next.
pub struct GridState {
    pub width: nat,
    pub height: nat,
    pub win_len: nat,
    pub cells: Seq<Seq<Token>>,
    pub player: Player,
}

/// `i` steps of size `d`, for a step `d` of -1, 0 or 1.
pub open spec fn scale(i: int, d: int) -> int {
    if d == 0 {
        0
    } else if d == 1 {
        i
    } else {
        -i
    }
}

/// The number of empty cells in a column.
pub open spec fn column_empties(col: Seq<Token>) -> nat
    decreases col.len(),
{
    if col.len() == 0 {
        0
    } else {
        column_empties(col.drop_last()) + if col.last() is Empty {
            1nat
        } else {
            0nat
        }
    }
}

/// The number of empty cells on a board.
pub open spec fn empty_cells(cells: Seq<Seq<Token>>) -> nat
    decreases cells.len(),
{
    if cells.len() == 0 {
        0
    } else {
        empty_cells(cells.drop_last()) + column_empties(cells.last())
    }
}

/// Filling one empty cell of a column leaves one empty cell fewer.
pub proof fn lemma_column_fill(col: Seq<Token>, y: int, t: Token)
    requires
        0 <= y < col.len(),
        col[y] is Empty,
        t is Filled,
    ensures
        column_empties(col.update(y, t)) + 1 == column_empties(col),
    decreases col.len(),
{
    let c2 = col.update(y, t);
    if y == col.len() - 1 {
        assert(c2.drop_last() =~= col.drop_last());
    } else {
        assert(c2.drop_last() =~= col.drop_last().update(y, t));
        lemma_column_fill(col.drop_last(), y, t);
    }
}

/// Filling one empty cell of a board leaves one empty cell fewer.
pub proof fn lemma_board_fill(cells: Seq<Seq<Token>>, x: int, y: int, t: Token)
    requires
        0 <= x < cells.len(),
        0 <= y < cells[x].len(),
        cells[x][y] is Empty,
        t is Filled,
    ensures
        empty_cells(cells.update(x, cells[x].update(y, t))) + 1 == empty_cells(cells),
    decreases cells.len(),
{
    let c2 = cells.update(x, cells[x].update(y, t));
    if x == cells.len() - 1 {
        assert(c2.drop_last() =~= cells.drop_last());
        lemma_column_fill(cells[x], y, t);
    } else {
        assert(c2.drop_last() =~= cells.drop_last().update(x, cells[x].update(y, t)));
        lemma_board_fill(cells.drop_last(), x, y, t);
    }
}

/// A column without empty cells is filled throughout.
pub proof fn lemma_column_no_empties(col: Seq<Token>, y: int)
    requires
        column_empties(col) == 0,
        0 <= y < col.len(),
    ensures
        col[y] is Filled,
    decreases col.len(),
{
    if y < col.len() - 1 {
        lemma_column_no_empties(col.drop_last(), y);
    }
}

/// A board without empty cells is filled throughout.
pub proof fn lemma_board_no_empties(cells: Seq<Seq<Token>>, x: int, y: int)
    requires
        empty_cells(cells) == 0,
        0 <= x < cells.len(),
        0 <= y < cells[x].len(),
    ensures
        cells[x][y] is Filled,
    decreases cells.len(),
{
    if x < cells.len() - 1 {
        lemma_board_no_empties(cells.drop_last(), x, y);
    } else {
        lemma_column_no_empties(cells[x], y);
    }
}

/// An empty column of height `n` has `n` empty cells.
pub proof fn lemma_column_all_empty(col: Seq<Token>)
    requires
        forall|y: int| 0 <= y < col.len() ==> #[trigger] col[y] is Empty,
    ensures
        column_empties(col) == col.len(),
    decreases col.len(),
{
    if col.len() > 0 {
        lemma_column_all_empty(col.drop_last());
    }
}

/// An empty board of `w` columns of height `h` has `w * h` empty cells.
pub proof fn lemma_board_all_empty(cells: Seq<Seq<Token>>, h: nat)
    requires
        forall|x: int| 0 <= x < cells.len() ==> (#[trigger] cells[x]).len() == h,
        forall|x: int, y: int| 0 <= x < cells.len() && 0 <= y < h ==> #[trigger] cells[x][y] is Empty,
    ensures
        empty_cells(cells) == cells.len() * h,
    decreases cells.len(),
{
    if cells.len() > 0 {
        lemma_board_all_empty(cells.drop_last(), h);
        let last = cells.last();
        assert forall|y: int| 0 <= y < last.len() implies #[trigger] last[y] is Empty by {
            assert(cells[cells.len() - 1][y] is Empty);
        }
        lemma_column_all_empty(last);
        assert((cells.len() - 1) * h + h == cells.len() * h) by (nonlinear_arith);
    }
}

/// A step to one of the eight neighbouring cells.
pub open spec fn is_unit_step(dx: int, dy: int) -> bool {
    -1 <= dx <= 1 && -1 <= dy <= 1 && !(dx == 0 && dy == 0)
}

/// The four directions in which a run can lie: up, right, and the two diagonals
/// going right.
pub open spec fn is_direction(dx: int, dy: int) -> bool {
    ||| dx == 0 && dy == 1
    ||| dx == 1 && dy == 0
    ||| dx == 1 && dy == 1
    ||| dx == 1 && dy == -1
}

impl GridState {
    pub open spec fn in_bounds(self, x: int, y: int) -> bool {
        0 <= x < self.width && 0 <= y < self.height
    }

    /// The dimensions are positive, the cells have the stated shape, and every
    /// column is filled contiguously from the bottom.
    pub open spec fn wf(self) -> bool {
        &&& self.width >= 1
        &&& self.height >= 1
        &&& self.win_len >= 1
        &&& self.cells.len() == self.width
        &&& forall|x: int| 0 <= x < self.width ==> (#[trigger] self.cells[x]).len() == self.height
        &&& forall|x: int, y1: int, y2: int|
            0 <= x < self.width && 0 <= y1 < y2 < self.height && (#[trigger] self.cells[x][y2]) is Filled
                ==> (#[trigger] self.cells[x][y1]) is Filled
    }

    /// Column `x` still has a free cell: its top cell is empty.
    pub open spec fn has_space(self, x: int) -> bool {
        self.cells[x][self.height - 1] is Empty
    }

    /// No column has a free cell.
    pub open spec fn is_full(self) -> bool {
        forall|x: int| 0 <= x < self.width ==> !#[trigger] self.has_space(x)
    }

    /// `win_len` cells of player `p`, starting at `(x, y)` and going in direction `(dx, dy)`.
    pub open spec fn run_at(self, p: Player, x: int, y: int, dx: int, dy: int) -> bool {
        forall|i: int|
            0 <= i < self.win_len ==> self.in_bounds(x + scale(i, dx), y + scale(i, dy))
                && #[trigger] self.cells[x + scale(i, dx)][y + scale(i, dy)] == Token::Filled(p)
    }

    /// A run of player `p` starts at step `j` of the line from `(x, y)` in direction `(dx, dy)`.
    pub open spec fn run_on_line(self, p: Player, x: int, y: int, dx: int, dy: int, j: int) -> bool {
        self.run_at(p, x + scale(j, dx), y + scale(j, dy), dx, dy)
    }

    /// The line from `(x, y)` in direction `(dx, dy)` holds a run of player `p`.
    pub open spec fn line_has_run(self, p: Player, x: int, y: int, dx: int, dy: int) -> bool {
        exists|j: int| j >= 0 && #[trigger] self.run_on_line(p, x, y, dx, dy, j)
    }

    /// Walking from `(x, y)` in steps of `(dx, dy)`, the first `k + win_len`
    /// cells are on the board and the last `win_len` of them belong to `p`.
    pub open spec fn walk_run(self, p: Player, x: int, y: int, dx: int, dy: int, k: int) -> bool {
        &&& forall|i: int|
            0 <= i < k + self.win_len ==> #[trigger] self.in_bounds(x + scale(i, dx), y + scale(i, dy))
        &&& self.run_on_line(p, x, y, dx, dy, k)
    }

    /// The walk from `(x, y)` in steps of `(dx, dy)` meets `win_len` tokens of
    /// `p` in a row before it leaves the board.
    pub open spec fn walk_has_run(self, p: Player, x: int, y: int, dx: int, dy: int) -> bool {
        exists|k: int| k >= 0 && #[trigger] self.walk_run(p, x, y, dx, dy, k)
    }

    /// A walk that reaches a cell off the board at step `j`, with no run ending
    /// before that step, meets no run; and neither does the whole line when the
    /// walk started on the board.
    pub proof fn lemma_walk_leaves(self, p: Player, x: int, y: int, dx: int, dy: int, j: int)
        requires
            is_unit_step(dx, dy),
            self.win_len >= 1,
            j >= 0,
            !self.in_bounds(x + scale(j, dx), y + scale(j, dy)),
            j > 0 ==> self.in_bounds(x, y),
            forall|k: int| 0 <= k && k + self.win_len <= j ==> !#[trigger] self.run_on_line(p, x, y, dx, dy, k),
        ensures
            !self.walk_has_run(p, x, y, dx, dy),
            self.in_bounds(x, y) ==> !self.line_has_run(p, x, y, dx, dy),
    {
        assert forall|k: int| k >= 0 implies !#[trigger] self.walk_run(p, x, y, dx, dy, k) by {
            if k + self.win_len > j && self.walk_run(p, x, y, dx, dy, k) {
                assert(self.in_bounds(x + scale(j, dx), y + scale(j, dy)));
            }
        }
        if self.in_bounds(x, y) {
            assert forall|k: int| k >= 0 implies !#[trigger] self.run_on_line(p, x, y, dx, dy, k) by {
                if k + self.win_len > j && self.run_on_line(p, x, y, dx, dy, k) {
                    let i = if k <= j {
                        j - k
                    } else {
                        0
                    };
                    assert(self.cells[x + scale(k, dx) + scale(i, dx)][y + scale(k, dy) + scale(
                        i,
                        dy,
                    )] == Token::Filled(p));
                    assert(false);
                }
            }
        }
    }

    /// Player `p` has `win_len` tokens in a row somewhere on the board.
    pub open spec fn has_run(self, p: Player) -> bool {
        exists|x: int, y: int, dx: int, dy: int|
            is_direction(dx, dy) && #[trigger] self.run_at(p, x, y, dx, dy)
    }

    /// One of the players has won.
    pub open spec fn is_won(self) -> bool {
        self.has_run(Player::P1) || self.has_run(Player::P2)
    }

    /// Row `y` is the lowest free cell of column `x`.
    pub open spec fn is_drop_row(self, x: int, y: int) -> bool {
        &&& 0 <= y < self.height
        &&& self.cells[x][y] is Empty
        &&& (y == 0 || self.cells[x][y - 1] is Filled)
    }

    /// The row that a token dropped into column `x` lands in.
    pub open spec fn drop_row(self, x: int) -> int {
        choose|y: int| self.is_drop_row(x, y)
    }

    /// The board after the current player's token lands in column `x`.
    pub open spec fn place(self, x: int) -> GridState {
        GridState {
            cells: self.cells.update(
                x,
                self.cells[x].update(self.drop_row(x), Token::Filled(self.player)),
            ),
            ..self
        }
    }

    /// The status of a board on which the current player has just moved.
    pub open spec fn status_after_move(self) -> Status {
        if self.has_run(self.player) {
            Status::Win(self.player)
        } else if self.is_full() {
            Status::Draw
        } else {
            Status::OnGoing
        }
    }

    /// The status that a drop into column `x` (with space) returns.
    pub open spec fn drop_status(self, x: int) -> Status {
        self.place(x).status_after_move()
    }

    /// The state after a successful drop into column `x`: the token is placed,
    /// and the turn passes to the other player only while the game goes on.
    pub open spec fn dropped(self, x: int) -> GridState {
        let s = self.place(x);
        if s.status_after_move() is OnGoing {
            GridState { player: self.player.other_spec(), ..s }
        } else {
            s
        }
    }

    /// In a well-formed column there is at most one lowest free cell.
    pub proof fn lemma_drop_row_unique(self, x: int, y1: int, y2: int)
        requires
            self.wf(),
            0 <= x < self.width,
            self.is_drop_row(x, y1),
            self.is_drop_row(x, y2),
        ensures
            y1 == y2,
    {
        if y1 < y2 {
            assert(self.cells[x][y2 - 1] is Filled);
            assert(self.cells[x][y1] is Filled);
        } else if y2 < y1 {
            assert(self.cells[x][y1 - 1] is Filled);
            assert(self.cells[x][y2] is Filled);
        }
    }

    /// The lowest free cell of a column with space is `y` when `y` is one.
    pub proof fn lemma_drop_row_is(self, x: int, y: int)
        requires
            self.wf(),
            0 <= x < self.width,
            self.is_drop_row(x, y),
        ensures
            self.drop_row(x) == y,
            self.place(x).wf(),
    {
        self.lemma_drop_row_unique(x, y, self.drop_row(x));
        let t = self.place(x);
        assert forall|a: int, y1: int, y2: int|
            0 <= a < t.width && 0 <= y1 < y2 < t.height && (#[trigger] t.cells[a][y2]) is Filled
                implies (#[trigger] t.cells[a][y1]) is Filled by {
            if a == x && y2 == y && y1 < y - 1 {
                assert(self.cells[x][y - 1] is Filled);
            }
        }
    }

    /// A run found on a line in one of the four directions is a run on the board.
    pub proof fn lemma_line_run(self, p: Player, x: int, y: int, dx: int, dy: int)
        requires
            is_direction(dx, dy),
            self.line_has_run(p, x, y, dx, dy),
        ensures
            self.has_run(p),
    {
        let j = choose|j: int| j >= 0 && #[trigger] self.run_on_line(p, x, y, dx, dy, j);
        assert(self.run_at(p, x + scale(j, dx), y + scale(j, dy), dx, dy));
    }

    /// Every run lies on one of the lines that start at the left or bottom edge
    /// (or, going down to the right, at the left or top edge), so a board none
    /// of whose such lines holds a run of `p` has no run of `p`.
    pub proof fn lemma_scan_complete(self, p: Player)
        requires
            self.wf(),
            forall|x: int| 0 <= x < self.width ==> !#[trigger] self.line_has_run(p, x, 0, 0, 1),
            forall|y: int| 0 <= y < self.height ==> !#[trigger] self.line_has_run(p, 0, y, 1, 0),
            forall|y: int|
                0 <= y && y + self.win_len <= self.height ==> !#[trigger] self.line_has_run(
                    p,
                    0,
                    y,
                    1,
                    1,
                ),
            forall|y: int|
                self.win_len <= y + 1 && y < self.height ==> !#[trigger] self.line_has_run(
                    p,
                    0,
                    y,
                    1,
                    -1,
                ),
            forall|x: int|
                0 <= x && x + self.win_len <= self.width ==> !#[trigger] self.line_has_run(
                    p,
                    x,
                    0,
                    1,
                    1,
                ),
            forall|x: int|
                0 <= x && x + self.win_len <= self.width ==> !#[trigger] self.line_has_run(
                    p,
                    x,
                    self.height - 1,
                    1,
                    -1,
                ),
        ensures
            !self.has_run(p),
    {
        if self.has_run(p) {
            let (a, b, dx, dy) = choose|a: int, b: int, dx: int, dy: int|
                is_direction(dx, dy) && #[trigger] self.run_at(p, a, b, dx, dy);
            let k = self.win_len - 1;
            assert(self.cells[a + scale(0, dx)][b + scale(0, dy)] == Token::Filled(p));
            assert(self.cells[a + scale(k, dx)][b + scale(k, dy)] == Token::Filled(p));
            if dx == 0 {
                assert(self.run_on_line(p, a, 0, 0, 1, b));
                assert(self.line_has_run(p, a, 0, 0, 1));
            } else if dy == 0 {
                assert(self.run_on_line(p, 0, b, 1, 0, a));
                assert(self.line_has_run(p, 0, b, 1, 0));
            } else if dy == 1 {
                if a <= b {
                    assert(self.run_on_line(p, 0, b - a, 1, 1, a));
                    assert(self.line_has_run(p, 0, b - a, 1, 1));
                } else {
                    assert(self.run_on_line(p, a - b, 0, 1, 1, b));
                    assert(self.line_has_run(p, a - b, 0, 1, 1));
                }
            } else {
                let c = a + b;
                if c <= self.height - 1 {
                    assert(self.run_on_line(p, 0, c, 1, -1, a));
                    assert(self.line_has_run(p, 0, c, 1, -1));
                } else {
                    let sx = c - (self.height - 1);
                    assert(self.run_on_line(p, sx, self.height - 1, 1, -1, a - sx));
                    assert(self.line_has_run(p, sx, self.height - 1, 1, -1));
                }
            }
        }
    }

    /// The number of empty cells.
    pub open spec fn empties(self) -> nat {
        empty_cells(self.cells)
    }

    /// A drop into a column with space fills exactly one empty cell.
    pub proof fn lemma_place_fills_one(self, x: int)
        requires
            self.wf(),
            0 <= x < self.width,
            self.has_space(x),
        ensures
            self.place(x).wf(),
            self.place(x).empties() + 1 == self.empties(),
            self.dropped(x).empties() + 1 == self.empties(),
            self.dropped(x).wf(),
    {
        let y = self.lowest_free(x, 0);
        self.lemma_drop_row_is(x, y);
        lemma_board_fill(self.cells, x, y, Token::Filled(self.player));
    }

    /// The lowest free cell of a column with space, searched from row `y` up.
    pub proof fn lowest_free(self, x: int, y: int) -> (r: int)
        requires
            self.wf(),
            0 <= x < self.width,
            self.has_space(x),
            0 <= y < self.height,
            forall|b: int| 0 <= b < y ==> #[trigger] self.cells[x][b] is Filled,
        ensures
            self.is_drop_row(x, r),
        decreases self.height - y,
    {
        if self.cells[x][y] is Empty {
            y
        } else {
            self.lowest_free(x, y + 1)
        }
    }

    /// What a drop into a column with space leads to: the game goes on with the
    /// other player to move and no run on the board; or the mover has a run and
    /// stays the player to move; or, with no run, the board is full.
    pub proof fn lemma_drop_outcome(self, x: int)
        requires
            self.wf(),
            !self.is_won(),
            0 <= x < self.width,
            self.has_space(x),
        ensures
            self.drop_status(x) is OnGoing ==> self.dropped(x).player == self.player.other_spec()
                && !self.dropped(x).is_won(),
            self.drop_status(x) is Win ==> self.drop_status(x) == Status::Win(self.player)
                && self.dropped(x).player == self.player && self.dropped(x).has_run(self.player),
            self.drop_status(x) is Draw ==> self.dropped(x).player == self.player
                && self.dropped(x).is_full() && !self.dropped(x).is_won(),
    {
        let y = self.lowest_free(x, 0);
        self.lemma_drop_row_is(x, y);
        let t = self.place(x);
        let q = self.player.other_spec();
        if t.has_run(q) {
            let (a, b, dx, dy) = choose|a: int, b: int, dx: int, dy: int|
                is_direction(dx, dy) && #[trigger] t.run_at(q, a, b, dx, dy);
            assert forall|i: int| 0 <= i < self.win_len implies self.in_bounds(
                a + scale(i, dx),
                b + scale(i, dy),
            ) && #[trigger] self.cells[a + scale(i, dx)][b + scale(i, dy)] == Token::Filled(q) by {
                assert(t.cells[a + scale(i, dx)][b + scale(i, dy)] == Token::Filled(q));
            }
            assert(self.run_at(q, a, b, dx, dy));
            assert(self.has_run(q));
        }
        let u = self.dropped(x);
        assert(u.cells == t.cells);
        if t.status_after_move() is OnGoing {
            assert forall|p: Player, a: int, b: int, dx: int, dy: int|
                #[trigger] u.run_at(p, a, b, dx, dy) implies t.run_at(p, a, b, dx, dy) by {
                assert forall|i: int| 0 <= i < t.win_len implies t.in_bounds(
                    a + scale(i, dx),
                    b + scale(i, dy),
                ) && #[trigger] t.cells[a + scale(i, dx)][b + scale(i, dy)] == Token::Filled(p) by {
                    assert(u.cells[a + scale(i, dx)][b + scale(i, dy)] == Token::Filled(p));
                }
            }
        }
        if self.player == Player::P1 {
            assert(q == Player::P2);
        } else {
            assert(q == Player::P1);
        }
    }

    /// The board has the given dimensions, every cell is empty and P1 moves first.
    pub open spec fn is_fresh(self, w: nat, h: nat, k: nat) -> bool {
        &&& self.width == w
        &&& self.height == h
        &&& self.win_len == k
        &&& self.player == Player::P1
        &&& self.cells.len() == w
        &&& forall|x: int| 0 <= x < w ==> (#[trigger] self.cells[x]).len() == h
        &&& forall|x: int, y: int| 0 <= x < w && 0 <= y < h ==> #[trigger] self.cells[x][y] is Empty
    }

    /// The state after successful drops into the columns of `moves`, in order.
    pub open spec fn after_moves(self, moves: Seq<int>) -> GridState
        decreases moves.len(),
    {
        if moves.len() == 0 {
            self
        } else {
            self.after_moves(moves.drop_last()).dropped(moves.last())
        }
    }

    /// Every drop of `moves` lands in a column with space, and every one but
    /// the last lets the game go on.
    pub open spec fn is_game_prefix(self, moves: Seq<int>) -> bool {
        forall|k: int|
            0 <= k < moves.len() ==> {
                let s = #[trigger] self.after_moves(moves.take(k));
                &&& 0 <= moves[k] < self.width
                &&& s.has_space(moves[k])
                &&& (k + 1 < moves.len() ==> s.drop_status(moves[k]) is OnGoing)
            }
    }

    /// Every drop of `moves` lands in a column with space and lets the game go on.
    pub open spec fn is_ongoing_game(self, moves: Seq<int>) -> bool {
        forall|k: int|
            0 <= k < moves.len() ==> {
                let s = #[trigger] self.after_moves(moves.take(k));
                &&& 0 <= moves[k] < self.width
                &&& s.has_space(moves[k])
                &&& s.drop_status(moves[k]) is OnGoing
            }
    }

    /// Drops keep the dimensions of the board.
    pub proof fn lemma_after_moves_shape(self, moves: Seq<int>)
        ensures
            self.after_moves(moves).width == self.width,
            self.after_moves(moves).height == self.height,
            self.after_moves(moves).win_len == self.win_len,
        decreases moves.len(),
    {
        if moves.len() > 0 {
            self.lemma_after_moves_shape(moves.drop_last());
        }
    }

    /// One more drop extends a game that has gone on so far.
    pub proof fn lemma_extend_game(self, moves: Seq<int>, x: int)
        requires
            self.is_ongoing_game(moves),
            0 <= x < self.width,
            self.after_moves(moves).has_space(x),
        ensures
            self.after_moves(moves.push(x)) == self.after_moves(moves).dropped(x),
            self.is_game_prefix(moves.push(x)),
            self.after_moves(moves).drop_status(x) is OnGoing ==> self.is_ongoing_game(
                moves.push(x),
            ),
    {
        let m = moves.push(x);
        assert(m.drop_last() =~= moves);
        assert(m.take(moves.len() as int) =~= moves);
        assert forall|k: int| 0 <= k < moves.len() implies #[trigger] m.take(k) =~= moves.take(k) by {
        }
        assert forall|k: int| 0 <= k < m.len() implies {
            let s = #[trigger] self.after_moves(m.take(k));
            &&& 0 <= m[k] < self.width
            &&& s.has_space(m[k])
            &&& (k + 1 < m.len() ==> s.drop_status(m[k]) is OnGoing)
        } by {
            if k < moves.len() {
                assert(m.take(k) =~= moves.take(k));
                assert(self.after_moves(moves.take(k)) == self.after_moves(m.take(k)));
            }
        }
        if self.after_moves(moves).drop_status(x) is OnGoing {
            assert forall|k: int| 0 <= k < m.len() implies {
                let s = #[trigger] self.after_moves(m.take(k));
                &&& 0 <= m[k] < self.width
                &&& s.has_space(m[k])
                &&& s.drop_status(m[k]) is OnGoing
            } by {
                if k < moves.len() {
                    assert(m.take(k) =~= moves.take(k));
                    assert(self.after_moves(moves.take(k)) == self.after_moves(m.take(k)));
                }
            }
        }
    }

    /// Every drop of `moves` lands in a column with space and completes no run.
    pub open spec fn quiet_moves(self, moves: Seq<int>) -> bool {
        forall|k: int|
            0 <= k < moves.len() ==> {
                let s = #[trigger] self.after_moves(moves.take(k));
                &&& 0 <= moves[k] < self.width
                &&& s.has_space(moves[k])
                &&& !s.place(moves[k]).has_run(s.player)
            }
    }

    proof fn lemma_quiet_prefix(self, moves: Seq<int>, k: int)
        requires
            self.wf(),
            self.quiet_moves(moves),
            0 <= k <= moves.len(),
        ensures
            self.after_moves(moves.take(k)).wf(),
            self.after_moves(moves.take(k)).empties() + k == self.empties(),
            self.after_moves(moves.take(k)).width == self.width,
            self.after_moves(moves.take(k)).height == self.height,
        decreases k,
    {
        if k > 0 {
            self.lemma_quiet_prefix(moves, k - 1);
            assert(moves.take(k).drop_last() =~= moves.take(k - 1));
            let s = self.after_moves(moves.take(k - 1));
            assert(s == self.after_moves(moves.take(k - 1)));
            s.lemma_place_fills_one(moves[k - 1]);
        }
    }

    /// On an empty board of `w` columns and `h` rows, `w * h` drops that each find
    /// space and complete no run end in a draw: the last returns `Draw`, and
    /// afterwards no column has space and the list of valid moves is empty.
    pub proof fn lemma_full_board_draw(self, moves: Seq<int>)
        requires
            self.is_fresh(self.width, self.height, self.win_len),
            self.wf(),
            moves.len() == self.width * self.height,
            self.quiet_moves(moves),
        ensures
            self.after_moves(moves.drop_last()).drop_status(moves.last()) == Status::Draw,
            self.after_moves(moves).is_full(),
            forall|m: Seq<usize>| #[trigger] self.after_moves(moves).is_valid_moves(m) ==> m.len() == 0,
    {
        lemma_board_all_empty(self.cells, self.height);
        assert(self.width * self.height >= 1) by (nonlinear_arith)
            requires
                self.width >= 1,
                self.height >= 1,
        ;
        let n = moves.len() - 1;
        self.lemma_quiet_prefix(moves, n);
        assert(moves.take(n) =~= moves.drop_last());
        let s = self.after_moves(moves.drop_last());
        let x = moves.last();
        assert(s == self.after_moves(moves.take(n)));
        s.lemma_place_fills_one(x);
        let t = s.place(x);
        assert forall|c: int| 0 <= c < t.width implies !#[trigger] t.has_space(c) by {
            lemma_board_no_empties(t.cells, c, t.height - 1);
        }
        assert(self.after_moves(moves) == t);
        assert forall|m: Seq<usize>| #[trigger] t.is_valid_moves(m) implies m.len() == 0 by {
            if m.len() > 0 {
                assert(t.has_space(m[0] as int));
            }
        }
    }

    /// The number of columns below `c` that have space.
    pub open spec fn spaces_below(self, c: int) -> nat
        decreases c,
    {
        if c <= 0 {
            0
        } else {
            self.spaces_below(c - 1) + if self.has_space(c - 1) {
                1nat
            } else {
                0nat
            }
        }
    }

    /// `moves` lists, in ascending order, exactly the columns that have space.
    pub open spec fn is_valid_moves(self, moves: Seq<usize>) -> bool {
        &&& forall|i: int, j: int| 0 <= i < j < moves.len() ==> moves[i] < moves[j]
        &&& forall|i: int|
            0 <= i < moves.len() ==> #[trigger] moves[i] < self.width && self.has_space(
                moves[i] as int,
            )
        &&& forall|x: int|
            0 <= x < self.width && #[trigger] self.has_space(x) ==> moves.contains(x as usize)
    }
}

} // verus!

verus! {

/// A board of tokens, into whose columns two players drop tokens in turn.
pub trait Grid: Sized {
    /// The abstract state of this board.
    spec fn state(&self) -> GridState;

    /// The representation invariant.
    spec fn inv(&self) -> bool;

    proof fn lemma_inv(&self)
        requires
            self.inv(),
        ensures
            self.state().wf(),
    ;

    /// The number of columns.
    fn width(&self) -> (r: usize)
        ensures
            r == self.state().width,
    ;

    /// The number of rows.
    fn height(&self) -> (r: usize)
        ensures
            r == self.state().height,
    ;

    /// The token at column `x` (left to right) and row `y` (bottom to top).
    fn get(&self, x: usize, y: usize) -> (r: Token)
        requires
            self.inv(),
            x < self.state().width,
            y < self.state().height,
        ensures
            r == self.state().cells[x as int][y as int],
    ;

    /// The player who makes the next move.
    fn current_player(&self) -> (r: Player)
        requires
            self.inv(),
        ensures
            r == self.state().player,
    ;

    /// Whether a token can be dropped into column `x`.
    fn has_space(&self, x: usize) -> (r: bool)
        requires
            self.inv(),
            x < self.state().width,
        ensures
            r == self.state().has_space(x as int),
    {
        proof {
            self.lemma_inv();
        }
        self.get(x, self.height() - 1) == Token::Empty
    }

    /// Drops the current player's token into column `x`. A full column gives
    /// `NoSpaceError` and leaves the board as it was; otherwise the token lands
    /// in the lowest free cell and the status of the game is returned.
    fn drop(&mut self, x: usize) -> (r: Result<Status, NoSpaceError>)
        requires
            old(self).inv(),
            x < old(self).state().width,
            !old(self).state().is_won(),
        ensures
            final(self).inv(),
            !old(self).state().has_space(x as int) ==> r == Err::<Status, NoSpaceError>(
                NoSpaceError(),
            ) && *final(self) == *old(self),
            old(self).state().has_space(x as int) ==> r == Ok::<Status, NoSpaceError>(
                old(self).state().drop_status(x as int),
            ) && final(self).state() == old(self).state().dropped(x as int),
            r == Ok::<Status, NoSpaceError>(Status::OnGoing) ==> final(self).state().player
                == old(self).state().player.other_spec(),
            forall|p: Player|
                r == Ok::<Status, NoSpaceError>(Status::Win(p)) ==> p == old(self).state().player
                    && final(self).state().player == p,
    ;

    /// The columns that have space, in ascending order.
    fn valid_moves(&self) -> (r: Vec<usize>)
        requires
            self.inv(),
        ensures
            self.state().is_valid_moves(r@),
    {
        let w = self.width();
        let mut moves: Vec<usize> = Vec::new();
        let mut x: usize = 0;
        while x < w
            invariant
                self.inv(),
                w == self.state().width,
                x <= w,
                forall|i: int, j: int| 0 <= i < j < moves@.len() ==> moves@[i] < moves@[j],
                forall|i: int|
                    0 <= i < moves@.len() ==> #[trigger] moves@[i] < x && self.state().has_space(
                        moves@[i] as int,
                    ),
                forall|c: int|
                    0 <= c < x && #[trigger] self.state().has_space(c) ==> moves@.contains(
                        c as usize,
                    ),
            decreases w - x,
        {
            if self.has_space(x) {
                let ghost before = moves@;
                moves.push(x);
                assert(moves@[moves@.len() - 1] == x);
                assert forall|c: int|
                    0 <= c < x && #[trigger] self.state().has_space(c) implies moves@.contains(
                        c as usize,
                    ) by {
                    let i = choose|i: int| 0 <= i < before.len() && before[i] == c as usize;
                    assert(moves@[i] == c as usize);
                }
            }
            x += 1;
        }
        moves
    }
}

} // verus!
