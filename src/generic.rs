use vstd::prelude::*;
use crate::grid::{Grid, GridState, NoSpaceError, Status, Token, scale, is_unit_step};
use crate::player::Player;

verus! {

/// The largest width or height of a `GenericGrid`: coordinates are walked as `i64`.
pub const MAX_SIDE: usize = 0x1000_0000;

/// A plainly implemented grid, whose width, height and number of tokens in a row
/// needed for a win are generic constants.
#[derive(Copy, Clone, PartialEq, Eq, Debug)]
pub struct GenericGrid<const WIDTH: usize, const HEIGHT: usize, const WIN_TOKENS: usize> {
    current_player: Player,
    grid: [[Token; HEIGHT]; WIDTH],
}

impl<const WIDTH: usize, const HEIGHT: usize, const WIN_TOKENS: usize>
    GenericGrid<WIDTH, HEIGHT, WIN_TOKENS>
{
    /// The dimensions this type can be used with.
    pub open spec fn valid_dims() -> bool {
        &&& 1 <= WIDTH <= MAX_SIDE
        &&& 1 <= HEIGHT <= MAX_SIDE
        &&& 1 <= WIN_TOKENS
    }

    /// A well-formed grid of this type has `WIDTH` columns, `HEIGHT` rows and
    /// needs `WIN_TOKENS` in a row.
    pub proof fn lemma_dims(&self)
        requires
            self.inv(),
        ensures
            self.state().width == WIDTH,
            self.state().height == HEIGHT,
            self.state().win_len == WIN_TOKENS,
            Self::valid_dims(),
    {
    }

    /// An empty grid, with P1 to move.
    pub fn new() -> (r: Self)
        requires
            Self::valid_dims(),
        ensures
            r.inv(),
            r.state().is_fresh(WIDTH as nat, HEIGHT as nat, WIN_TOKENS as nat),
    {
        let r = GenericGrid {
            current_player: Player::P1,
            grid: [[Token::Empty;HEIGHT];WIDTH],
        };
        assert(r.state().cells.len() == WIDTH);
        r
    }

    fn set(&mut self, x: usize, y: usize, t: Token)
        requires
            x < WIDTH,
            y < HEIGHT,
        ensures
            final(self).current_player == old(self).current_player,
            forall|a: int| 0 <= a < WIDTH && a != x ==> final(self).grid[a] == old(self).grid[a],
            final(self).grid[x as int]@ == old(self).grid[x as int]@.update(y as int, t),
    {
        let mut col = self.grid[x];
        col[y] = t;
        self.grid[x] = col;
        assert(col@ =~= old(self).grid[x as int]@.update(y as int, t));
    }

    /// Walks from `(x, y)` in steps of `(dx, dy)`, counting consecutive tokens
    /// of `p` and starting again at zero at any other cell. True when the count
    /// reaches `WIN_TOKENS` before the walk leaves the board.
    #[verifier::rlimit(60)]
    fn check_tokens(&self, x: i64, y: i64, dx: i64, dy: i64, p: Player) -> (r: bool)
        requires
            self.inv(),
            is_unit_step(dx as int, dy as int),
        ensures
            r == self.state().walk_has_run(p, x as int, y as int, dx as int, dy as int),
            self.state().in_bounds(x as int, y as int) ==> r == self.state().line_has_run(
                p,
                x as int,
                y as int,
                dx as int,
                dy as int,
            ),
    {
        let ghost s = self.state();
        let ghost x0 = x as int;
        let ghost y0 = y as int;
        let ghost mut j: int = 0;
        let mut cx = x;
        let mut cy = y;
        let mut count: usize = 0;
        while count < WIN_TOKENS
            invariant
                self.inv(),
                s == self.state(),
                x0 == x as int,
                y0 == y as int,
                is_unit_step(dx as int, dy as int),
                j > 0 ==> s.in_bounds(x0, y0),
                j >= 0,
                cx == x0 + scale(j, dx as int),
                cy == y0 + scale(j, dy as int),
                count <= j,
                count <= WIN_TOKENS,
                forall|i: int|
                    0 <= i < j ==> #[trigger] s.in_bounds(
                        x0 + scale(i, dx as int),
                        y0 + scale(i, dy as int),
                    ),
                forall|i: int|
                    j - count <= i < j ==> #[trigger] s.cells[x0 + scale(i, dx as int)][y0
                        + scale(i, dy as int)] == Token::Filled(p),
                j - count == 0 || s.cells[x0 + scale(j - count - 1, dx as int)][y0 + scale(
                    j - count - 1,
                    dy as int,
                )] != Token::Filled(p),
                count < WIN_TOKENS ==> forall|k: int|
                    0 <= k && k + WIN_TOKENS <= j ==> !#[trigger] s.run_on_line(
                        p,
                        x0,
                        y0,
                        dx as int,
                        dy as int,
                        k,
                    ),
            decreases (if dx == 1 {
                WIDTH - cx
            } else if dx == -1 {
                cx + 1
            } else {
                0
            }) + (if dy == 1 {
                HEIGHT - cy
            } else if dy == -1 {
                cy + 1
            } else {
                0
            }),
        {
            if cx < 0 || cx >= WIDTH as i64 || cy < 0 || cy >= HEIGHT as i64 {
                proof {
                    s.lemma_walk_leaves(p, x0, y0, dx as int, dy as int, j);
                }
                return false;
            }
            if self.get(cx as usize, cy as usize) != Token::Filled(p) {
                count = 0;
            } else {
                count += 1;
            }
            proof {
                assert forall|k: int|
                    0 <= k && k + WIN_TOKENS <= j + 1 && count < WIN_TOKENS implies !#[trigger] s.run_on_line(
                    p,
                    x0,
                    y0,
                    dx as int,
                    dy as int,
                    k,
                ) by {
                    if k + WIN_TOKENS == j + 1 {
                        let i = j - count - k;
                        assert(0 <= i < WIN_TOKENS);
                        assert(x0 + scale(k, dx as int) + scale(i, dx as int) == x0 + scale(
                            j - count,
                            dx as int,
                        ));
                        assert(y0 + scale(k, dy as int) + scale(i, dy as int) == y0 + scale(
                            j - count,
                            dy as int,
                        ));
                    }
                }
                j = j + 1;
            }
            cx += dx;
            cy += dy;
        }
        proof {
            let k = j - WIN_TOKENS;
            assert forall|i: int| 0 <= i < WIN_TOKENS implies s.in_bounds(
                x0 + scale(k, dx as int) + scale(i, dx as int),
                y0 + scale(k, dy as int) + scale(i, dy as int),
            ) && #[trigger] s.cells[x0 + scale(k, dx as int) + scale(i, dx as int)][y0 + scale(
                k,
                dy as int,
            ) + scale(i, dy as int)] == Token::Filled(p) by {
                assert(x0 + scale(k, dx as int) + scale(i, dx as int) == x0 + scale(
                    k + i,
                    dx as int,
                ));
                assert(y0 + scale(k, dy as int) + scale(i, dy as int) == y0 + scale(
                    k + i,
                    dy as int,
                ));
                assert(s.in_bounds(x0 + scale(k + i, dx as int), y0 + scale(k + i, dy as int)));
            }
            assert(s.run_on_line(p, x0, y0, dx as int, dy as int, k));
            assert(s.walk_run(p, x0, y0, dx as int, dy as int, k));
        }
        true
    }

    /// Whether the current player has `WIN_TOKENS` in a row anywhere on the
    /// grid, scanning every line that could hold such a run.
    fn is_win(&self) -> (r: bool)
        requires
            self.inv(),
        ensures
            r == self.state().has_run(self.state().player),
    {
        let ghost s = self.state();
        let p = self.current_player;
        let mut x: usize = 0;
        while x < WIDTH
            invariant
                self.inv(),
                s == self.state(),
                p == s.player,
                x <= WIDTH,
                forall|a: int| 0 <= a < x ==> !#[trigger] s.line_has_run(p, a, 0, 0, 1),
            decreases WIDTH - x,
        {
            if self.check_tokens(x as i64, 0, 0, 1, p) {
                proof {
                    s.lemma_line_run(p, x as int, 0, 0, 1);
                }
                return true;
            }
            x += 1;
        }
        let mut y: usize = 0;
        while y < HEIGHT
            invariant
                self.inv(),
                s == self.state(),
                p == s.player,
                y <= HEIGHT,
                forall|a: int| 0 <= a < WIDTH ==> !#[trigger] s.line_has_run(p, a, 0, 0, 1),
                forall|b: int| 0 <= b < y ==> !#[trigger] s.line_has_run(p, 0, b, 1, 0),
                forall|b: int|
                    0 <= b < y && b + WIN_TOKENS <= HEIGHT ==> !#[trigger] s.line_has_run(
                        p,
                        0,
                        b,
                        1,
                        1,
                    ),
                forall|b: int|
                    WIN_TOKENS <= b + 1 && b < y ==> !#[trigger] s.line_has_run(p, 0, b, 1, -1),
            decreases HEIGHT - y,
        {
            if self.check_tokens(0, y as i64, 1, 0, p) {
                proof {
                    s.lemma_line_run(p, 0, y as int, 1, 0);
                }
                return true;
            }
            if WIN_TOKENS <= HEIGHT - y && self.check_tokens(0, y as i64, 1, 1, p) {
                proof {
                    s.lemma_line_run(p, 0, y as int, 1, 1);
                }
                return true;
            }
            if WIN_TOKENS <= y + 1 && self.check_tokens(0, y as i64, 1, -1, p) {
                proof {
                    s.lemma_line_run(p, 0, y as int, 1, -1);
                }
                return true;
            }
            y += 1;
        }
        let mut x: usize = 0;
        while x < WIDTH
            invariant
                self.inv(),
                s == self.state(),
                p == s.player,
                x <= WIDTH,
                forall|a: int| 0 <= a < WIDTH ==> !#[trigger] s.line_has_run(p, a, 0, 0, 1),
                forall|b: int| 0 <= b < HEIGHT ==> !#[trigger] s.line_has_run(p, 0, b, 1, 0),
                forall|b: int|
                    0 <= b && b + WIN_TOKENS <= HEIGHT ==> !#[trigger] s.line_has_run(
                        p,
                        0,
                        b,
                        1,
                        1,
                    ),
                forall|b: int|
                    WIN_TOKENS <= b + 1 && b < HEIGHT ==> !#[trigger] s.line_has_run(
                        p,
                        0,
                        b,
                        1,
                        -1,
                    ),
                forall|a: int|
                    0 <= a < x && a + WIN_TOKENS <= WIDTH ==> !#[trigger] s.line_has_run(
                        p,
                        a,
                        0,
                        1,
                        1,
                    ),
                forall|a: int|
                    0 <= a < x && a + WIN_TOKENS <= WIDTH ==> !#[trigger] s.line_has_run(
                        p,
                        a,
                        HEIGHT - 1,
                        1,
                        -1,
                    ),
            decreases WIDTH - x,
        {
            if WIN_TOKENS <= WIDTH - x {
                if self.check_tokens(x as i64, 0, 1, 1, p) {
                    proof {
                        s.lemma_line_run(p, x as int, 0, 1, 1);
                    }
                    return true;
                }
                if self.check_tokens(x as i64, (HEIGHT - 1) as i64, 1, -1, p) {
                    proof {
                        s.lemma_line_run(p, x as int, HEIGHT - 1, 1, -1);
                    }
                    return true;
                }
            }
            x += 1;
        }
        proof {
            s.lemma_scan_complete(p);
        }
        false
    }
}

impl<const WIDTH: usize, const HEIGHT: usize, const WIN_TOKENS: usize> Grid
    for GenericGrid<WIDTH, HEIGHT, WIN_TOKENS>
{
    closed spec fn state(&self) -> GridState {
        GridState {
            width: WIDTH as nat,
            height: HEIGHT as nat,
            win_len: WIN_TOKENS as nat,
            cells: Seq::new(WIDTH as nat, |x: int| self.grid[x]@),
            player: self.current_player,
        }
    }

    closed spec fn inv(&self) -> bool {
        Self::valid_dims() && self.state().wf()
    }

    proof fn lemma_inv(&self) {
    }

    fn width(&self) -> (r: usize) {
        WIDTH
    }

    fn height(&self) -> (r: usize) {
        HEIGHT
    }

    fn get(&self, x: usize, y: usize) -> (r: Token) {
        self.grid[x][y]
    }

    fn current_player(&self) -> (r: Player) {
        self.current_player
    }

    fn drop(&mut self, x: usize) -> (r: Result<Status, NoSpaceError>) {
        if !self.has_space(x) {
            return Err(NoSpaceError());
        }
        let ghost s0 = self.state();
        let mut y: usize = 0;
        proof {
            self.lemma_inv();
            self.state().lemma_drop_outcome(x as int);
        }
        while self.get(x, y) != Token::Empty
            invariant
                self.inv(),
                self.state() == s0,
                x < WIDTH,
                y < HEIGHT,
                s0.has_space(x as int),
                forall|b: int| 0 <= b < y ==> #[trigger] s0.cells[x as int][b] is Filled,
            decreases HEIGHT - y,
        {
            y += 1;
        }
        proof {
            assert(s0.is_drop_row(x as int, y as int));
            s0.lemma_drop_row_is(x as int, y as int);
        }
        let p = self.current_player;
        self.set(x, y, Token::Filled(p));
        assert(self.state().cells =~= s0.place(x as int).cells);
        assert(self.state() == s0.place(x as int));
        if self.is_win() {
            return Ok(Status::Win(p));
        }
        let mut c: usize = 0;
        while c < WIDTH
            invariant
                self.inv(),
                self.state() == s0.place(x as int),
                s0 == old(self).state(),
                s0.has_space(x as int),
                x < WIDTH,
                !self.state().has_run(p),
                p == s0.player,
                c <= WIDTH,
                forall|a: int| 0 <= a < c ==> !#[trigger] self.state().has_space(a),
            decreases WIDTH - c,
        {
            if self.has_space(c) {
                self.current_player = p.other();
                assert(self.state().cells =~= s0.place(x as int).cells);
                return Ok(Status::OnGoing);
            }
            c += 1;
        }
        Ok(Status::Draw)
    }
}

} // verus!
