use vstd::prelude::*;
use crate::grid::{Grid, GridState, NoSpaceError, Status, Token, scale, is_direction};
use crate::generic::GenericGrid;
use crate::player::Player;

verus! {

/// The guard bit of every column.
pub const TOP: u64 = 0b1000000100000010000001000000100000010000001000000;

/// Every cell of the board, without the guard bits.
pub const DRAW_BITBOARD: u64 = 0b111111011111101111110111111011111101111110111111;

/// Bit `i` of `b`.
pub open spec fn bit(b: u64, i: u64) -> bool {
    (b >> i) & 1 == 1
}

/// The bit index of cell `(x, y)`: seven bits per column, six for the cells and
/// one guard bit on top.
pub open spec fn idx(x: int, y: int) -> u64 {
    (7 * x + y) as u64
}

/// The bits `i` of `m` for which bits `i`, `i + d`, `i + 2d` and `i + 3d` are all set.
pub open spec fn quad(m: u64, d: u64) -> u64 {
    m & (m >> d) & (m >> ((2 * d) as u64)) & (m >> ((3 * d) as u64))
}

/// Four set bits of `m` in a row along one of the four bit strides.
pub open spec fn win_mask(m: u64) -> bool {
    quad(m, 6) != 0 || quad(m, 8) != 0 || quad(m, 7) != 0 || quad(m, 1) != 0
}

proof fn lemma_quad_bit(m: u64, d: u64, i: u64)
    by (bit_vector)
    requires
        m >> 49u64 == 0,
        1 <= d <= 8,
        i < 64,
    ensures
        bit(quad(m, d), i) <==> (i + 3 * d < 49 && bit(m, i) && bit(m, (i + d) as u64) && bit(
            m,
            (i + 2 * d) as u64,
        ) && bit(m, (i + 3 * d) as u64)),
{
}

proof fn lemma_bit_nonzero(x: u64, i: u64)
    by (bit_vector)
    requires
        i < 64,
        (x >> i) & 1 == 1,
    ensures
        x != 0,
{
}

/// A non-zero word has a set bit at or above `k` once all bits below `k` are known clear.
proof fn lemma_some_bit(x: u64, k: u64)
    requires
        k < 64,
        x >> k != 0,
    ensures
        exists|i: u64| k <= i < 64 && #[trigger] bit(x, i),
    decreases 64 - k,
{
    if !bit(x, k) {
        assert(x >> ((k + 1) as u64) != 0 && k + 1 < 64) by (bit_vector)
            requires
                k < 64,
                x >> k != 0,
                (x >> k) & 1 != 1,
        ;
        lemma_some_bit(x, (k + 1) as u64);
    }
}

proof fn lemma_nonzero_bit(x: u64)
    requires
        x != 0,
    ensures
        exists|i: u64| i < 64 && #[trigger] bit(x, i),
{
    assert(x >> 0u64 != 0) by (bit_vector)
        requires
            x != 0,
    ;
    lemma_some_bit(x, 0);
}

proof fn lemma_bits_eq(a: u64, b: u64)
    requires
        forall|i: u64| i < 64 ==> #[trigger] bit(a, i) == bit(b, i),
    ensures
        a == b,
{
    if a != b {
        assert(a ^ b != 0) by (bit_vector)
            requires
                a != b,
        ;
        lemma_nonzero_bit(a ^ b);
        let i = choose|i: u64| i < 64 && #[trigger] bit(a ^ b, i);
        assert(bit(a ^ b, i) ==> bit(a, i) != bit(b, i)) by (bit_vector);
        assert(bit(a, i) == bit(b, i));
    }
}

proof fn lemma_xor_bit(b: u64, h: u64, i: u64)
    by (bit_vector)
    requires
        h < 64,
        i < 64,
    ensures
        bit(b ^ (1u64 << h), i) == (if i == h {
            !bit(b, i)
        } else {
            bit(b, i)
        }),
        b >> 49u64 == 0 && h < 49 ==> (b ^ (1u64 << h)) >> 49u64 == 0,
{
}

proof fn lemma_or_bit(a: u64, b: u64, i: u64)
    by (bit_vector)
    requires
        i < 64,
    ensures
        bit(a | b, i) == (bit(a, i) || bit(b, i)),
{
}

proof fn lemma_top(h: u64, x: u64)
    by (bit_vector)
    requires
        x < 7,
        7 * x <= h <= 7 * x + 6,
    ensures
        (TOP & (1u64 << h) == 0) <==> h != 7 * x + 6,
{
}

proof fn lemma_draw_bit(i: u64)
    by (bit_vector)
    requires
        i < 64,
    ensures
        bit(DRAW_BITBOARD, i) <==> (i < 49 && i % 7 != 6),
{
}

proof fn lemma_parity(c: u8)
    by (bit_vector)
    ensures
        (c & 1 == 0) <==> c % 2 == 0,
        c & 1 < 2,
{
}

proof fn lemma_zero_bits(i: u64)
    by (bit_vector)
    ensures
        !bit(0, i),
        0u64 >> 49u64 == 0,
{
}

proof fn lemma_or_high(a: u64, b: u64)
    by (bit_vector)
    requires
        a >> 49u64 == 0,
        b >> 49u64 == 0,
    ensures
        (a | b) >> 49u64 == 0,
{
}

proof fn lemma_high_clear(b: u64, i: u64)
    by (bit_vector)
    requires
        b >> 49u64 == 0,
        49 <= i < 64,
    ensures
        !bit(b, i),
{
}

/// With bit `i` of `m` standing for a token of `p` in cell `(i / 7, i % 7)`,
/// the shift-and-mask test finds exactly the runs of four.
pub proof fn lemma_win_mask(s: GridState, p: Player, m: u64)
    requires
        s.wf(),
        s.width == 7,
        s.height == 6,
        s.win_len == 4,
        m >> 49u64 == 0,
        forall|x: int| 0 <= x < 7 ==> !#[trigger] bit(m, idx(x, 6)),
        forall|x: int, y: int|
            0 <= x < 7 && 0 <= y < 6 ==> (#[trigger] s.cells[x][y] == Token::Filled(p) <==> bit(
                m,
                idx(x, y),
            )),
    ensures
        win_mask(m) <==> s.has_run(p),
{
    if win_mask(m) {
        let d: u64 = if quad(m, 6) != 0 {
            6
        } else if quad(m, 8) != 0 {
            8
        } else if quad(m, 7) != 0 {
            7
        } else {
            1
        };
        lemma_nonzero_bit(quad(m, d));
        let i = choose|i: u64| i < 64 && #[trigger] bit(quad(m, d), i);
        lemma_quad_bit(m, d, i);
        let a = i as int / 7;
        let b = i as int % 7;
        assert(i as int == 7 * a + b && 0 <= b < 7);
        assert(0 <= a < 7);
        assert(!bit(m, idx(a, 6)));
        if a + 1 < 7 {
            assert(!bit(m, idx(a + 1, 6)));
        }
        if a + 2 < 7 {
            assert(!bit(m, idx(a + 2, 6)));
        }
        if a + 3 < 7 {
            assert(!bit(m, idx(a + 3, 6)));
        }
        if a >= 1 {
            assert(!bit(m, idx(a - 1, 6)));
        }
        let (dx, dy): (int, int) = if d == 6 {
            (1, -1)
        } else if d == 8 {
            (1, 1)
        } else if d == 7 {
            (1, 0)
        } else {
            (0, 1)
        };
        assert forall|k: int| 0 <= k < 4 implies s.in_bounds(a + scale(k, dx), b + scale(k, dy))
            && #[trigger] s.cells[a + scale(k, dx)][b + scale(k, dy)] == Token::Filled(p) by {
            let j = (i + k * d) as u64;
            if k == 0 {
                assert(bit(m, i));
            } else if k == 1 {
                assert(bit(m, (i + d) as u64));
            } else if k == 2 {
                assert(bit(m, (i + 2 * d) as u64));
            } else {
                assert(bit(m, (i + 3 * d) as u64));
            }
            assert(idx(a + scale(k, dx), b + scale(k, dy)) == j);
        }
        assert(s.run_at(p, a, b, dx, dy));
    }
    if s.has_run(p) {
        let (a, b, dx, dy) = choose|a: int, b: int, dx: int, dy: int|
            is_direction(dx, dy) && #[trigger] s.run_at(p, a, b, dx, dy);
        let d: u64 = (7 * dx + dy) as u64;
        let i = idx(a, b);
        assert(s.cells[a + scale(0, dx)][b + scale(0, dy)] == Token::Filled(p));
        assert(s.cells[a + scale(1, dx)][b + scale(1, dy)] == Token::Filled(p));
        assert(s.cells[a + scale(2, dx)][b + scale(2, dy)] == Token::Filled(p));
        assert(s.cells[a + scale(3, dx)][b + scale(3, dy)] == Token::Filled(p));
        assert(bit(m, i));
        assert(bit(m, (i + d) as u64));
        assert(bit(m, (i + 2 * d) as u64));
        assert(bit(m, (i + 3 * d) as u64));
        lemma_quad_bit(m, d, i);
        lemma_bit_nonzero(quad(m, d), i);
    }
}

/// A grid of the standard size (seven columns, six rows, four in a row to win),
/// held as one bit per cell for each player.
#[derive(Copy, Clone, PartialEq, Eq, Debug)]
pub struct BitboardGrid {
    bitboards: [u64; 2],
    height: [u64; 7],
    counter: u8,
}

impl BitboardGrid {
    /// The token in cell `(x, y)` as the bits show it.
    pub closed spec fn cell(&self, x: int, y: int) -> Token {
        if bit(self.bitboards[0], idx(x, y)) {
            Token::Filled(Player::P1)
        } else if bit(self.bitboards[1], idx(x, y)) {
            Token::Filled(Player::P2)
        } else {
            Token::Empty
        }
    }

    /// The number of tokens on the board.
    pub closed spec fn tokens(&self) -> int {
        (self.height[0] - 0) + (self.height[1] - 7) + (self.height[2] - 14) + (self.height[3] - 21)
            + (self.height[4] - 28) + (self.height[5] - 35) + (self.height[6] - 42)
    }

    /// A well-formed bitboard grid has seven columns, six rows and needs four
    /// in a row.
    pub proof fn lemma_dims(&self)
        requires
            self.inv(),
        ensures
            self.state().width == 7,
            self.state().height == 6,
            self.state().win_len == 4,
    {
    }

    /// An empty grid, with P1 to move.
    pub fn new() -> (r: Self)
        ensures
            r.inv(),
            r.state().is_fresh(7, 6, 4),
    {
        let r = BitboardGrid { bitboards: [0, 0], height: [0, 7, 14, 21, 28, 35, 42], counter: 0 };
        proof {
            assert(r.height[0] == 0 && r.height[1] == 7 && r.height[2] == 14 && r.height[3] == 21);
            assert(r.height[4] == 28 && r.height[5] == 35 && r.height[6] == 42);
            assert(r.bitboards[0] == 0 && r.bitboards[1] == 0);
            assert forall|i: u64| i < 64 implies !#[trigger] bit(r.bitboards[0], i) && !bit(
                r.bitboards[1],
                i,
            ) by {
                lemma_zero_bits(i);
            }
            lemma_zero_bits(0);
            assert forall|x: int, y: int| 0 <= x < 7 && 0 <= y < 7 implies ((bit(
                r.bitboards[0],
                #[trigger] idx(x, y),
            ) || bit(r.bitboards[1], idx(x, y))) <==> 7 * x + y < r.height[x]) by {
                lemma_zero_bits(idx(x, y));
            }
            assert(r.state().player == Player::P1);
            assert forall|x: int, y: int| 0 <= x < 7 && 0 <= y < 6 implies #[trigger] r.state().cells[x][y]
                is Empty by {
                assert(r.state().cells[x][y] == r.cell(x, y));
                lemma_zero_bits(idx(x, y));
            }
        }
        r
    }

    /// The mover's bitboard holds a run of four exactly when the mover has a run.
    proof fn lemma_win(self)
        requires
            self.inv(),
        ensures
            win_mask(self.bitboards[(self.counter & 1) as int]) <==> self.state().has_run(
                self.state().player,
            ),
    {
        lemma_parity(self.counter);
        self.lemma_inv();
        let s = self.state();
        let p = s.player;
        let m = self.bitboards[(self.counter & 1) as int];
        assert forall|x: int| 0 <= x < 7 implies !#[trigger] bit(m, idx(x, 6)) by {
            assert(7 * x + 6 >= self.height[x]);
        }
        assert forall|x: int, y: int| 0 <= x < 7 && 0 <= y < 6 implies (#[trigger] s.cells[x][y]
            == Token::Filled(p) <==> bit(m, idx(x, y))) by {
            assert(s.cells[x][y] == self.cell(x, y));
            assert(idx(x, y) < 64);
            assert(!(bit(self.bitboards[0], idx(x, y)) && bit(self.bitboards[1], idx(x, y))));
        }
        lemma_win_mask(s, p, m);
    }

    /// The two bitboards together cover every cell exactly when no column has space.
    proof fn lemma_draw(self)
        requires
            self.inv(),
        ensures
            (self.bitboards[0] | self.bitboards[1] == DRAW_BITBOARD) <==> self.state().is_full(),
    {
        let s = self.state();
        let u = self.bitboards[0] | self.bitboards[1];
        if u == DRAW_BITBOARD {
            assert forall|x: int| 0 <= x < 7 implies !#[trigger] s.has_space(x) by {
                let i = idx(x, 5);
                lemma_draw_bit(i);
                lemma_or_bit(self.bitboards[0], self.bitboards[1], i);
                assert(s.cells[x][5] == self.cell(x, 5));
            }
        }
        if s.is_full() {
            lemma_or_high(self.bitboards[0], self.bitboards[1]);
            assert forall|i: u64| i < 64 implies #[trigger] bit(u, i) == bit(DRAW_BITBOARD, i) by {
                lemma_draw_bit(i);
                lemma_or_bit(self.bitboards[0], self.bitboards[1], i);
                if i < 49 {
                    let a = i as int / 7;
                    let b = i as int % 7;
                    assert(idx(a, b) == i);
                    assert(!s.has_space(a));
                    assert(s.cells[a][5] == self.cell(a, 5));
                    assert(idx(a, 5) < 64);
                    assert(7 * a + 5 < self.height[a]);
                } else {
                    lemma_high_clear(u, i);
                }
            }
            lemma_bits_eq(u, DRAW_BITBOARD);
        }
    }

    /// Setting bit `height[x]` of the mover's bitboard and raising `height[x]`
    /// places the mover's token in the lowest free cell of column `x`.
    proof fn lemma_drop_bits(self, prev: Self, x: int)
        requires
            prev.inv(),
            0 <= x < 7,
            prev.height[x] <= 7 * x + 5,
            self.counter == prev.counter,
            forall|a: int| 0 <= a < 7 && a != x ==> #[trigger] self.height[a] == prev.height[a],
            self.height[x] == prev.height[x] + 1,
            prev.counter & 1 == 0 ==> self.bitboards[0] == prev.bitboards[0] ^ (1u64
                << prev.height[x]) && self.bitboards[1] == prev.bitboards[1],
            prev.counter & 1 == 1 ==> self.bitboards[1] == prev.bitboards[1] ^ (1u64
                << prev.height[x]) && self.bitboards[0] == prev.bitboards[0],
        ensures
            self.inv(),
            self.state() == prev.state().place(x),
            self.tokens() == prev.tokens() + 1,
    {
        lemma_parity(prev.counter);
        prev.lemma_inv();
        let h = prev.height[x];
        let y0 = h - 7 * x;
        let c = prev.counter & 1;
        assert forall|i: u64| i < 64 implies (#[trigger] bit(self.bitboards[0], i) == (bit(
            prev.bitboards[0],
            i,
        ) != (c == 0 && i == h))) && bit(self.bitboards[1], i) == (bit(prev.bitboards[1], i) != (c
            == 1 && i == h)) by {
            lemma_xor_bit(prev.bitboards[0], h, i);
            lemma_xor_bit(prev.bitboards[1], h, i);
        }
        lemma_xor_bit(prev.bitboards[0], h, 0);
        lemma_xor_bit(prev.bitboards[1], h, 0);
        assert(idx(x, y0) == h);
        assert(!bit(prev.bitboards[0], h) && !bit(prev.bitboards[1], h));
        assert forall|a: int, y: int| 0 <= a < 7 && 0 <= y < 7 implies ((bit(
            self.bitboards[0],
            #[trigger] idx(a, y),
        ) || bit(self.bitboards[1], idx(a, y))) <==> 7 * a + y < self.height[a]) by {
            assert(idx(a, y) < 64);
        }
        assert forall|i: u64| i < 64 implies !(#[trigger] bit(self.bitboards[0], i) && bit(
            self.bitboards[1],
            i,
        )) by {
        }
        let s0 = prev.state();
        assert(s0.cells[x][y0] == prev.cell(x, y0));
        if y0 > 0 {
            assert(s0.cells[x][y0 - 1] == prev.cell(x, y0 - 1));
            assert(idx(x, y0 - 1) < 64);
        }
        assert(s0.is_drop_row(x, y0));
        s0.lemma_drop_row_is(x, y0);
        let t = s0.place(x);
        let n = self.state();
        assert forall|a: int| 0 <= a < 7 implies #[trigger] n.cells[a] =~= t.cells[a] by {
            assert forall|y: int| 0 <= y < 6 implies n.cells[a][y] == t.cells[a][y] by {
                assert(n.cells[a][y] == self.cell(a, y));
                assert(s0.cells[a][y] == prev.cell(a, y));
                assert(idx(a, y) < 64);
            }
        }
        assert(n.cells =~= t.cells);
    }

    /// Whether `bitboard` holds four bits in a row along a column, a row or a diagonal.
    fn is_win(bitboard: u64) -> (r: bool)
        ensures
            r == win_mask(bitboard),
    {
        if bitboard & (bitboard >> 6) & (bitboard >> 12) & (bitboard >> 18) != 0 {
            return true;
        }
        if bitboard & (bitboard >> 8) & (bitboard >> 16) & (bitboard >> 24) != 0 {
            return true;
        }
        if bitboard & (bitboard >> 7) & (bitboard >> 14) & (bitboard >> 21) != 0 {
            return true;
        }
        if bitboard & (bitboard >> 1) & (bitboard >> 2) & (bitboard >> 3) != 0 {
            return true;
        }
        false
    }
}

impl Grid for BitboardGrid {
    closed spec fn state(&self) -> GridState {
        GridState {
            width: 7,
            height: 6,
            win_len: 4,
            cells: Seq::new(7, |x: int| Seq::new(6, |y: int| self.cell(x, y))),
            player: if self.counter % 2 == 0 {
                Player::P1
            } else {
                Player::P2
            },
        }
    }

    closed spec fn inv(&self) -> bool {
        &&& forall|x: int| 0 <= x < 7 ==> 7 * x <= #[trigger] self.height[x] <= 7 * x + 6
        &&& forall|x: int, y: int|
            0 <= x < 7 && 0 <= y < 7 ==> ((bit(self.bitboards[0], #[trigger] idx(x, y)) || bit(
                self.bitboards[1],
                idx(x, y),
            )) <==> 7 * x + y < self.height[x])
        &&& forall|i: u64| i < 64 ==> !(#[trigger] bit(self.bitboards[0], i) && bit(self.bitboards[1], i))
        &&& self.bitboards[0] >> 49u64 == 0
        &&& self.bitboards[1] >> 49u64 == 0
        &&& self.counter as int <= self.tokens()
    }

    proof fn lemma_inv(&self) {
        let s = self.state();
        assert forall|x: int| 0 <= x < 7 implies (#[trigger] s.cells[x]).len() == 6 by {
        }
        assert forall|x: int, y1: int, y2: int|
            0 <= x < 7 && 0 <= y1 < y2 < 6 && (#[trigger] s.cells[x][y2]) is Filled
                implies (#[trigger] s.cells[x][y1]) is Filled by {
            assert(s.cells[x][y2] == self.cell(x, y2));
            assert(s.cells[x][y1] == self.cell(x, y1));
            assert(7 * x + y2 < self.height[x]);
        }
    }

    fn width(&self) -> (r: usize) {
        7
    }

    fn height(&self) -> (r: usize) {
        6
    }

    fn get(&self, x: usize, y: usize) -> (r: Token) {
        let i = (x * 7 + y) as u64;
        if (self.bitboards[0] >> i) & 1 == 1 {
            Token::Filled(Player::P1)
        } else if (self.bitboards[1] >> i) & 1 == 1 {
            Token::Filled(Player::P2)
        } else {
            Token::Empty
        }
    }

    fn current_player(&self) -> (r: Player) {
        proof {
            lemma_parity(self.counter);
        }
        match self.counter & 1 {
            0 => Player::P1,
            _ => Player::P2,
        }
    }

    fn has_space(&self, x: usize) -> (r: bool) {
        let h = self.height[x];
        proof {
            lemma_top(h, x as u64);
            assert(self.state().cells[x as int][5] == self.cell(x as int, 5));
            assert(idx(x as int, 5) == 7 * x + 5);
        }
        TOP & (1u64 << h) == 0
    }

    fn drop(&mut self, x: usize) -> (r: Result<Status, NoSpaceError>) {
        if !self.has_space(x) {
            return Err(NoSpaceError());
        }
        let ghost prev = *self;
        let h = self.height[x];
        proof {
            self.lemma_inv();
            self.state().lemma_drop_outcome(x as int);
        }
        proof {
            lemma_parity(self.counter);
            assert(prev.state().cells[x as int][5] == prev.cell(x as int, 5));
            assert(idx(x as int, 5) < 64);
        }
        let mov: u64 = 1u64 << h;
        self.height[x] = h + 1;
        let c: usize = (self.counter & 1) as usize;
        self.bitboards[c] = self.bitboards[c] ^ mov;
        proof {
            self.lemma_drop_bits(prev, x as int);
        }
        let p = self.current_player();
        proof {
            self.lemma_win();
            self.lemma_draw();
        }
        if Self::is_win(self.bitboards[c]) {
            return Ok(Status::Win(p));
        }
        if self.bitboards[0] | self.bitboards[1] == DRAW_BITBOARD {
            return Ok(Status::Draw);
        }
        let ghost placed = self.state();
        self.counter += 1;
        proof {
            assert forall|a: int| 0 <= a < 7 implies #[trigger] self.state().cells[a]
                =~= placed.cells[a] by {
                assert forall|y: int| 0 <= y < 6 implies self.state().cells[a][y]
                    == placed.cells[a][y] by {
                    assert(self.state().cells[a][y] == self.cell(a, y));
                }
            }
            assert(self.state().cells =~= placed.cells);
        }
        Ok(Status::OnGoing)
    }
}

/// A fresh array-backed board of the standard size and a fresh bitboard are in
/// the same state, so the same columns dropped into both, in the same order,
/// give the same status at every step and leave the same cells after every step.
pub proof fn lemma_standard_boards_agree(g: GenericGrid<7, 6, 4>, b: BitboardGrid, moves: Seq<int>)
    requires
        g.state().is_fresh(7, 6, 4),
        b.state().is_fresh(7, 6, 4),
    ensures
        g.state() == b.state(),
        forall|k: int|
            0 <= k <= moves.len() ==> #[trigger] g.state().after_moves(moves.take(k)) == b.state().after_moves(
                moves.take(k),
            ),
        forall|k: int|
            0 <= k < moves.len() ==> #[trigger] g.state().after_moves(moves.take(k)).drop_status(
                moves[k],
            ) == b.state().after_moves(moves.take(k)).drop_status(moves[k]),
{
    let s = g.state();
    let t = b.state();
    assert forall|x: int| 0 <= x < 7 implies #[trigger] s.cells[x] =~= t.cells[x] by {
        assert forall|y: int| 0 <= y < 6 implies s.cells[x][y] == t.cells[x][y] by {
            assert(s.cells[x][y] is Empty);
            assert(t.cells[x][y] is Empty);
        }
    }
    assert(s.cells =~= t.cells);
}

} // verus!
