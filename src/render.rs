use vstd::prelude::*;
use vstd::string::StringExecFns;
use crate::grid::{Grid, GridState, Token};
use crate::player::Player;

verus! {

/// The decimal digit `d`.
pub open spec fn digit(d: nat) -> char {
    seq!['0', '1', '2', '3', '4', '5', '6', '7', '8', '9'][d as int]
}

/// `n` written in decimal.
pub open spec fn decimal(n: nat) -> Seq<char>
    decreases n,
{
    if n < 10 {
        seq![digit(n)]
    } else {
        decimal(n / 10) + seq![digit(n % 10)]
    }
}

/// The player's glyph: `X` for P1, `O` for P2.
pub open spec fn symbol_of(p: Player) -> char {
    if p == Player::P1 {
        'X'
    } else {
        'O'
    }
}

/// A cell as three characters: the glyph of its player between two spaces, or blanks.
pub open spec fn cell_text(t: Token) -> Seq<char> {
    match t {
        Token::Empty => seq![' ', ' ', ' '],
        Token::Filled(p) => seq![' ', symbol_of(p), ' '],
    }
}

/// The column numbers of the first `k` columns, each in a field of four characters.
pub open spec fn index_line(k: nat) -> Seq<char>
    decreases k,
{
    if k == 0 {
        Seq::empty()
    } else {
        index_line((k - 1) as nat) + seq![' ', ' '] + decimal((k - 1) as nat) + seq![' ']
    }
}

/// The first `k` of `w` segments of a horizontal border, joined by `mid`.
pub open spec fn bar(w: nat, k: nat, mid: Seq<char>) -> Seq<char>
    decreases k,
{
    if k == 0 {
        Seq::empty()
    } else {
        bar(w, (k - 1) as nat, mid) + seq!['─', '─', '─'] + if k - 1 != w - 1 {
            mid
        } else {
            Seq::empty()
        }
    }
}

/// The first `k` cells of row `y`, each followed by a vertical line.
pub open spec fn row_cells(s: GridState, y: int, k: nat) -> Seq<char>
    decreases k,
{
    if k == 0 {
        Seq::empty()
    } else {
        row_cells(s, y, (k - 1) as nat) + cell_text(s.cells[k - 1][y]) + seq!['│']
    }
}

/// Row `y` and, above the bottom row, the line under it.
pub open spec fn row_block(s: GridState, y: int) -> Seq<char> {
    seq!['│'] + row_cells(s, y, s.width) + seq!['\n'] + if y != 0 {
        seq!['├'] + bar(s.width, s.width, seq!['┼']) + seq!['┤', '\n']
    } else {
        Seq::empty()
    }
}

/// The top `k` rows, from the top down.
pub open spec fn rows(s: GridState, k: nat) -> Seq<char>
    decreases k,
{
    if k == 0 {
        Seq::empty()
    } else {
        rows(s, (k - 1) as nat) + row_block(s, s.height - k)
    }
}

/// The text of a board: whose turn it is, the column numbers, and the cells in
/// a box, top row first.
pub open spec fn board_text(s: GridState) -> Seq<char> {
    "Current player: "@ + seq![symbol_of(s.player), '\n'] + index_line(s.width) + seq!['\n', '┌']
        + bar(s.width, s.width, seq!['┬']) + seq!['┐', '\n'] + rows(s, s.height) + seq!['└'] + bar(
        s.width,
        s.width,
        seq!['┴'],
    ) + seq!['┘']
}

fn digit_str(d: usize) -> (r: &'static str)
    requires
        d < 10,
    ensures
        r@ == seq![digit(d as nat)],
{
    proof {
        reveal_strlit("0");
        reveal_strlit("1");
        reveal_strlit("2");
        reveal_strlit("3");
        reveal_strlit("4");
        reveal_strlit("5");
        reveal_strlit("6");
        reveal_strlit("7");
        reveal_strlit("8");
        reveal_strlit("9");
    }
    match d {
        0 => "0",
        1 => "1",
        2 => "2",
        3 => "3",
        4 => "4",
        5 => "5",
        6 => "6",
        7 => "7",
        8 => "8",
        _ => "9",
    }
}

/// Appends `n` in decimal to `out`.
fn push_decimal(out: &mut String, n: usize)
    ensures
        final(out)@ == old(out)@ + decimal(n as nat),
    decreases n,
{
    if n < 10 {
        out.append(digit_str(n));
    } else {
        push_decimal(out, n / 10);
        out.append(digit_str(n % 10));
        assert(out@ =~= old(out)@ + decimal(n as nat));
    }
}

/// Appends the `w` segments of a horizontal border, joined by `mid`.
fn push_bar(out: &mut String, w: usize, mid: &str)
    ensures
        final(out)@ == old(out)@ + bar(w as nat, w as nat, mid@),
{
    proof {
        reveal_strlit("───");
    }
    let mut x: usize = 0;
    while x < w
        invariant
            x <= w,
            out@ == old(out)@ + bar(w as nat, x as nat, mid@),
        decreases w - x,
    {
        let ghost before = out@;
        out.append("───");
        if x != w - 1 {
            out.append(mid);
        }
        proof {
            reveal_strlit("───");
            assert(out@ =~= old(out)@ + bar(w as nat, (x + 1) as nat, mid@));
        }
        x += 1;
    }
}

/// Appends the text of a cell.
fn push_cell(out: &mut String, t: Token)
    ensures
        final(out)@ == old(out)@ + cell_text(t),
{
    proof {
        reveal_strlit("   ");
        reveal_strlit(" X ");
        reveal_strlit(" O ");
    }
    match t {
        Token::Empty => out.append("   "),
        Token::Filled(Player::P1) => out.append(" X "),
        Token::Filled(Player::P2) => out.append(" O "),
    }
}

/// Appends row `y` and, above the bottom row, the line under it.
fn push_row<G: Grid>(out: &mut String, grid: &G, y: usize)
    requires
        grid.inv(),
        y < grid.state().height,
    ensures
        final(out)@ == old(out)@ + row_block(grid.state(), y as int),
{
    proof {
        reveal_strlit("│");
    }
    let w = grid.width();
    let ghost s = grid.state();
    out.append("│");
    let ghost start = out@;
    let mut x: usize = 0;
    while x < w
        invariant
            grid.inv(),
            s == grid.state(),
            w == s.width,
            y < s.height,
            x <= w,
            out@ == start + row_cells(s, y as int, x as nat),
        decreases w - x,
    {
        push_cell(out, grid.get(x, y));
        out.append("│");
        proof {
            reveal_strlit("│");
            assert(out@ =~= start + row_cells(s, y as int, (x + 1) as nat));
        }
        x += 1;
    }
    out.append("\n");
    let ghost mid = out@;
    proof {
        reveal_strlit("│");
        reveal_strlit("\n");
        assert(mid =~= old(out)@ + (seq!['│'] + row_cells(s, y as int, s.width) + seq!['\n']));
    }
    if y != 0 {
        out.append("├");
        push_bar(out, w, "┼");
        out.append("┤\n");
        proof {
            reveal_strlit("├");
            reveal_strlit("┼");
            reveal_strlit("┤\n");
            assert("┤\n"@ =~= seq!['┤', '\n']);
            assert("├"@ =~= seq!['├']);
            assert("┼"@ =~= seq!['┼']);
            assert(out@ =~= mid + (seq!['├'] + bar(s.width, s.width, seq!['┼']) + seq!['┤', '\n']));
        }
    } else {
        assert(out@ =~= mid + Seq::<char>::empty());
    }
    proof {
        assert(out@ =~= old(out)@ + row_block(s, y as int));
    }
}

/// The text of the board: whose turn it is, the column numbers, and the cells
/// in a box drawn with line characters, top row first.
pub fn render<G: Grid>(grid: &G) -> (r: String)
    requires
        grid.inv(),
    ensures
        r@ == board_text(grid.state()),
{
    proof {
        grid.lemma_inv();
        reveal_strlit("Current player: ");
        reveal_strlit("X");
        reveal_strlit("O");
        reveal_strlit("\n");
    }
    let ghost s = grid.state();
    let w = grid.width();
    let h = grid.height();
    let mut out = String::new();
    out.append("Current player: ");
    match grid.current_player() {
        Player::P1 => out.append("X"),
        Player::P2 => out.append("O"),
    }
    out.append("\n");
    let ghost head = out@;
    let mut x: usize = 0;
    while x < w
        invariant
            x <= w,
            out@ == head + index_line(x as nat),
        decreases w - x,
    {
        out.append("  ");
        push_decimal(&mut out, x);
        out.append(" ");
        proof {
            reveal_strlit("  ");
            reveal_strlit(" ");
            assert(out@ =~= head + index_line((x + 1) as nat));
        }
        x += 1;
    }
    proof {
        assert(out@ =~= "Current player: "@ + seq![symbol_of(s.player), '\n'] + index_line(s.width));
    }
    out.append("\n");
    out.append("┌");
    push_bar(&mut out, w, "┬");
    out.append("┐\n");
    let ghost top = out@;
    proof {
        reveal_strlit("┌");
        reveal_strlit("┬");
        reveal_strlit("┐\n");
        reveal_strlit("\n");
        assert("┌"@ =~= seq!['┌']);
        assert("┬"@ =~= seq!['┬']);
        assert("┐\n"@ =~= seq!['┐', '\n']);
        assert("\n"@ =~= seq!['\n']);
        assert(top =~= "Current player: "@ + seq![symbol_of(s.player), '\n'] + index_line(s.width)
            + seq!['\n', '┌'] + bar(s.width, s.width, seq!['┬']) + seq!['┐', '\n']);
    }
    let mut k: usize = 0;
    while k < h
        invariant
            grid.inv(),
            s == grid.state(),
            h == s.height,
            k <= h,
            out@ == top + rows(s, k as nat),
        decreases h - k,
    {
        push_row(&mut out, grid, h - 1 - k);
        proof {
            assert(out@ =~= top + rows(s, (k + 1) as nat));
        }
        k += 1;
    }
    out.append("└");
    push_bar(&mut out, w, "┴");
    out.append("┘");
    proof {
        reveal_strlit("└");
        reveal_strlit("┴");
        reveal_strlit("┘");
        assert("└"@ =~= seq!['└']);
        assert("┴"@ =~= seq!['┴']);
        assert("┘"@ =~= seq!['┘']);
        assert(out@ =~= board_text(s));
    }
    out
}

} // verus!
