use vstd::prelude::*;
use crate::grid::{Grid, GridState, NoSpaceError, Status};
use crate::player::Player;

verus! {

/// Chooses the column a player drops into.
pub trait PlayerController<G: Grid> {
    fn pick_move(&mut self, grid: &G) -> usize;
}

/// One round of a game: drops the current player's token into column `index`.
/// A column off the board or without space gives `NoSpaceError` and leaves the
/// board as it was.
pub fn play_turn<G: Grid>(grid: &mut G, index: usize) -> (r: Result<Status, NoSpaceError>)
    requires
        old(grid).inv(),
        !old(grid).state().is_won(),
    ensures
        final(grid).inv(),
        index >= old(grid).state().width || !old(grid).state().has_space(index as int) ==> r
            == Err::<Status, NoSpaceError>(NoSpaceError()) && *final(grid) == *old(grid),
        index < old(grid).state().width && old(grid).state().has_space(index as int) ==> r
            == Ok::<Status, NoSpaceError>(old(grid).state().drop_status(index as int))
            && final(grid).state() == old(grid).state().dropped(index as int),
{
    if index >= grid.width() {
        return Err(NoSpaceError());
    }
    grid.drop(index)
}

/// The outcome of a game from `s` whose rounds dropped into the columns of
/// `moves`, the last round giving `r`: every drop found space and all but the
/// last went on; `r` is the status of the last drop, or, for `NoSpaceError`,
/// every drop went on and the last round picked a column without space.
pub open spec fn game_outcome(
    s: GridState,
    moves: Seq<int>,
    r: Result<Status, NoSpaceError>,
    end: GridState,
) -> bool {
    &&& end == s.after_moves(moves)
    &&& match r {
        Ok(st) => {
            &&& s.is_game_prefix(moves)
            &&& moves.len() > 0
            &&& st == s.after_moves(moves.drop_last()).drop_status(moves.last())
            &&& !(st is OnGoing)
        },
        Err(_) => s.is_ongoing_game(moves),
    }
}

/// Plays a game with the two controllers, each choosing for its own player,
/// round by round through `play_turn`, until a drop wins or draws, or until a
/// controller picks a column that is full or off the board, which gives
/// `NoSpaceError`.
pub fn play<G: Grid, A: PlayerController<G>, B: PlayerController<G>>(
    grid: &mut G,
    p1: &mut A,
    p2: &mut B,
) -> (r: Result<Status, NoSpaceError>)
    requires
        old(grid).inv(),
        !old(grid).state().is_won(),
    ensures
        final(grid).inv(),
        exists|moves: Seq<int>| #[trigger]
            game_outcome(old(grid).state(), moves, r, final(grid).state()),
        r != Ok::<Status, NoSpaceError>(Status::OnGoing),
        r == Ok::<Status, NoSpaceError>(Status::Draw) ==> final(grid).state().is_full()
            && !final(grid).state().is_won(),
        forall|p: Player|
            r == Ok::<Status, NoSpaceError>(Status::Win(p)) ==> final(grid).state().has_run(p)
                && final(grid).state().player == p,
        r is Err ==> !final(grid).state().is_won(),
{
    let ghost s0 = grid.state();
    let ghost mut moves: Seq<int> = Seq::empty();
    loop
        invariant
            grid.inv(),
            !grid.state().is_won(),
            s0 == old(grid).state(),
            s0.is_ongoing_game(moves),
            grid.state() == s0.after_moves(moves),
        decreases grid.state().empties(),
    {
        let ghost before = grid.state();
        proof {
            grid.lemma_inv();
            s0.lemma_after_moves_shape(moves);
        }
        let index = match grid.current_player() {
            Player::P1 => p1.pick_move(grid),
            Player::P2 => p2.pick_move(grid),
        };
        let r = play_turn(grid, index);
        proof {
            if index < before.width && before.has_space(index as int) {
                before.lemma_place_fills_one(index as int);
                before.lemma_drop_outcome(index as int);
                s0.lemma_extend_game(moves, index as int);
                let prev = moves;
                moves = moves.push(index as int);
                assert(moves.drop_last() =~= prev);
                assert(moves.last() == index as int);
                assert(grid.state() == s0.after_moves(moves));
                if r != Ok::<Status, NoSpaceError>(Status::OnGoing) {
                    assert(game_outcome(s0, moves, r, grid.state()));
                }
            } else {
                assert(game_outcome(s0, moves, r, grid.state()));
            }
        }
        match r {
            Ok(Status::OnGoing) => {},
            _ => {
                return r;
            },
        }
    }
}

/// The `i`-th column (counting from zero, left to right) among those with
/// space, or `None` when fewer than `i + 1` columns have space.
pub fn nth_valid_move<G: Grid>(grid: &G, i: usize) -> (r: Option<usize>)
    requires
        grid.inv(),
    ensures
        match r {
            Some(c) => c < grid.state().width && grid.state().has_space(c as int)
                && grid.state().spaces_below(c as int) == i,
            None => grid.state().spaces_below(grid.state().width as int) <= i,
        },
{
    let w = grid.width();
    let mut n: usize = 0;
    let mut x: usize = 0;
    while x < w
        invariant
            grid.inv(),
            w == grid.state().width,
            x <= w,
            n <= i,
            n == grid.state().spaces_below(x as int),
        decreases w - x,
    {
        if grid.has_space(x) {
            if n == i {
                return Some(x);
            }
            n += 1;
        }
        x += 1;
    }
    None
}

} // verus!
