use connect::{
    BitboardGrid, GenericGrid, Grid, NoSpaceError, Player, PlayerController, Status, Token, nth_valid_move,
    play, play_turn,
};

type Standard = GenericGrid<7, 6, 4>;

fn drops<G: Grid>(grid: &mut G, moves: &[usize]) -> Vec<Result<Status, NoSpaceError>> {
    moves.iter().map(|&x| grid.drop(x)).collect()
}

fn cells<G: Grid>(grid: &G) -> Vec<Token> {
    let mut v = Vec::new();
    for x in 0..grid.width() {
        for y in 0..grid.height() {
            v.push(grid.get(x, y));
        }
    }
    v
}

#[test]
fn other_swaps_players() {
    assert_eq!(Player::P1.other(), Player::P2);
    assert_eq!(Player::P2.other(), Player::P1);
    assert_eq!(Player::P1.symbol(), 'X');
    assert_eq!(Player::P2.symbol(), 'O');
}

#[test]
fn token_default_is_empty() {
    assert_eq!(Token::default(), Token::Empty);
}

#[test]
fn fresh_boards_are_empty() {
    let g = Standard::new();
    let b = BitboardGrid::new();
    assert_eq!(g.width(), 7);
    assert_eq!(b.width(), 7);
    assert_eq!(g.height(), 6);
    assert_eq!(b.height(), 6);
    assert_eq!(g.current_player(), Player::P1);
    assert_eq!(b.current_player(), Player::P1);
    assert!(cells(&g).iter().all(|t| *t == Token::Empty));
    assert!(cells(&b).iter().all(|t| *t == Token::Empty));
    assert_eq!(g.valid_moves(), vec![0, 1, 2, 3, 4, 5, 6]);
    assert_eq!(b.valid_moves(), vec![0, 1, 2, 3, 4, 5, 6]);
}

#[test]
fn tokens_stack_from_the_bottom() {
    let mut g = Standard::new();
    let mut b = BitboardGrid::new();
    drops(&mut g, &[3, 3, 4]);
    drops(&mut b, &[3, 3, 4]);
    for grid in [cells(&g), cells(&b)] {
        assert_eq!(grid[3 * 6], Token::Filled(Player::P1));
        assert_eq!(grid[3 * 6 + 1], Token::Filled(Player::P2));
        assert_eq!(grid[3 * 6 + 2], Token::Empty);
        assert_eq!(grid[4 * 6], Token::Filled(Player::P1));
    }
    assert_eq!(g.get(3, 1), Token::Filled(Player::P2));
    assert_eq!(b.get(3, 1), Token::Filled(Player::P2));
}

#[test]
fn failed_drop_leaves_board_unchanged() {
    let mut g = Standard::new();
    let mut b = BitboardGrid::new();
    drops(&mut g, &[0, 0, 0, 0, 0, 0]);
    drops(&mut b, &[0, 0, 0, 0, 0, 0]);
    let g0 = g;
    let b0 = b;
    assert_eq!(g.drop(0), Err(NoSpaceError()));
    assert_eq!(b.drop(0), Err(NoSpaceError()));
    assert_eq!(g, g0);
    assert_eq!(b, b0);
    assert_eq!(g.valid_moves(), vec![1, 2, 3, 4, 5, 6]);
    assert_eq!(b.valid_moves(), vec![1, 2, 3, 4, 5, 6]);
}

#[test]
fn player_alternates_then_stays_with_winner() {
    let mut g = Standard::new();
    let mut b = BitboardGrid::new();
    let moves = [0, 1, 0, 1, 0, 1];
    let mut expected = Player::P1;
    for &x in moves.iter() {
        assert_eq!(g.current_player(), expected);
        assert_eq!(b.current_player(), expected);
        assert_eq!(g.drop(x), Ok(Status::OnGoing));
        assert_eq!(b.drop(x), Ok(Status::OnGoing));
        expected = expected.other();
    }
    assert_eq!(g.drop(0), Ok(Status::Win(Player::P1)));
    assert_eq!(b.drop(0), Ok(Status::Win(Player::P1)));
    assert_eq!(g.current_player(), Player::P1);
    assert_eq!(b.current_player(), Player::P1);
}

#[test]
fn horizontal_win() {
    let moves = [0, 0, 1, 1, 2, 2, 3];
    let mut g = Standard::new();
    let mut b = BitboardGrid::new();
    let rg = drops(&mut g, &moves);
    let rb = drops(&mut b, &moves);
    assert_eq!(rg, rb);
    assert_eq!(rg[6], Ok(Status::Win(Player::P1)));
}

#[test]
fn rising_diagonal_win() {
    // P1 ends with (0,0), (1,1), (2,2), (3,3).
    let moves = [0, 1, 1, 2, 2, 3, 2, 3, 3, 6, 3];
    let mut g = Standard::new();
    let mut b = BitboardGrid::new();
    let rg = drops(&mut g, &moves);
    let rb = drops(&mut b, &moves);
    assert_eq!(rg, rb);
    assert_eq!(rg[10], Ok(Status::Win(Player::P1)));
    assert!(rg[..10].iter().all(|r| *r == Ok(Status::OnGoing)));
}

#[test]
fn falling_diagonal_win_near_the_corner() {
    // P1 ends with (0,3), (1,2), (2,1), (3,0): the diagonal x + y == 3.
    let moves = [3, 2, 2, 1, 1, 0, 1, 0, 0, 6, 0];
    let mut g = Standard::new();
    let mut b = BitboardGrid::new();
    let rg = drops(&mut g, &moves);
    let rb = drops(&mut b, &moves);
    assert_eq!(rg, rb);
    assert_eq!(rg[10], Ok(Status::Win(Player::P1)));
    assert!(rg[..10].iter().all(|r| *r == Ok(Status::OnGoing)));
}

#[test]
fn second_player_wins() {
    let moves = [0, 6, 1, 6, 2, 6, 0, 6];
    let mut g = Standard::new();
    let mut b = BitboardGrid::new();
    let rg = drops(&mut g, &moves);
    let rb = drops(&mut b, &moves);
    assert_eq!(rg, rb);
    assert_eq!(rg[7], Ok(Status::Win(Player::P2)));
    assert_eq!(g.current_player(), Player::P2);
    assert_eq!(b.current_player(), Player::P2);
}

#[test]
fn boards_agree_step_by_step() {
    let moves = [3, 3, 4, 2, 5, 6, 1, 0, 2, 2, 4, 4, 5, 5, 0, 1, 6, 6, 3, 1, 0];
    let mut g = Standard::new();
    let mut b = BitboardGrid::new();
    for &x in moves.iter() {
        let rg = g.drop(x);
        let rb = b.drop(x);
        assert_eq!(rg, rb);
        assert_eq!(cells(&g), cells(&b));
        assert_eq!(g.current_player(), b.current_player());
        assert_eq!(g.valid_moves(), b.valid_moves());
        if rg != Ok(Status::OnGoing) && rg != Err(NoSpaceError()) {
            break;
        }
    }
}

#[test]
fn smaller_generic_board() {
    let mut g = GenericGrid::<3, 3, 3>::new();
    let moves = [0, 1, 1, 2, 2, 0, 2];
    let r = drops(&mut g, &moves);
    assert_eq!(r[6], Ok(Status::Win(Player::P1)));
    let mut d = GenericGrid::<2, 2, 3>::new();
    assert_eq!(drops(&mut d, &[0, 0, 1, 1]), vec![
        Ok(Status::OnGoing),
        Ok(Status::OnGoing),
        Ok(Status::OnGoing),
        Ok(Status::Draw),
    ]);
    assert!(d.valid_moves().is_empty());
}

#[test]
fn single_token_wins_when_run_is_one() {
    let mut g = GenericGrid::<2, 2, 1>::new();
    assert_eq!(g.drop(1), Ok(Status::Win(Player::P1)));
}

struct Script {
    moves: Vec<usize>,
    next: usize,
}

impl<G: Grid> PlayerController<G> for Script {
    fn pick_move(&mut self, _grid: &G) -> usize {
        let m = self.moves[self.next];
        self.next += 1;
        m
    }
}

#[test]
fn play_until_win() {
    let mut g = BitboardGrid::new();
    let mut a = Script { moves: vec![0, 0, 0, 0], next: 0 };
    let mut b = Script { moves: vec![1, 1, 1], next: 0 };
    assert_eq!(play(&mut g, &mut a, &mut b), Ok(Status::Win(Player::P1)));
    assert_eq!(g.current_player(), Player::P1);
}

#[test]
fn play_stops_on_full_column_and_off_board() {
    let mut g = Standard::new();
    let mut a = Script { moves: vec![0, 0, 0, 0], next: 0 };
    let mut b = Script { moves: vec![0, 0, 0], next: 0 };
    assert_eq!(play(&mut g, &mut a, &mut b), Err(NoSpaceError()));
    let mut g = Standard::new();
    let mut a = Script { moves: vec![7], next: 0 };
    let mut b = Script { moves: vec![], next: 0 };
    assert_eq!(play(&mut g, &mut a, &mut b), Err(NoSpaceError()));
}

#[test]
fn render_shows_turn_and_cells() {
    let mut g = Standard::new();
    g.drop(0).unwrap();
    g.drop(6).unwrap();
    let text = connect::render::render(&g);
    let lines: Vec<&str> = text.split('\n').collect();
    assert_eq!(lines[0], "Current player: X");
    assert_eq!(lines[1], "  0   1   2   3   4   5   6 ");
    assert_eq!(lines[2], "┌───┬───┬───┬───┬───┬───┬───┐");
    assert_eq!(lines[3], "│   │   │   │   │   │   │   │");
    assert_eq!(lines[4], "├───┼───┼───┼───┼───┼───┼───┤");
    assert_eq!(lines[13], "│ X │   │   │   │   │   │ O │");
    assert_eq!(lines[14], "└───┴───┴───┴───┴───┴───┴───┘");
    assert_eq!(lines.len(), 15);
    let b = {
        let mut b = BitboardGrid::new();
        b.drop(0).unwrap();
        b.drop(6).unwrap();
        b
    };
    assert_eq!(connect::render::render(&b), text);
}

#[test]
fn render_numbers_wide_boards() {
    let g = GenericGrid::<11, 1, 2>::new();
    let text = connect::render::render(&g);
    let lines: Vec<&str> = text.split('\n').collect();
    assert_eq!(lines[1], "  0   1   2   3   4   5   6   7   8   9   10 ");
    assert_eq!(lines.len(), 5);
}

#[test]
fn play_turn_rounds() {
    let mut g = Standard::new();
    let before = g;
    assert_eq!(play_turn(&mut g, 7), Err(NoSpaceError()));
    assert_eq!(g, before);
    assert_eq!(play_turn(&mut g, 2), Ok(Status::OnGoing));
    assert_eq!(g.get(2, 0), Token::Filled(Player::P1));
    assert_eq!(g.current_player(), Player::P2);
    let mut b = BitboardGrid::new();
    for _ in 0..6 {
        assert_eq!(play_turn(&mut b, 5), Ok(Status::OnGoing));
    }
    let full = b;
    assert_eq!(play_turn(&mut b, 5), Err(NoSpaceError()));
    assert_eq!(b, full);
    assert_eq!(play_turn(&mut b, 100), Err(NoSpaceError()));
    assert_eq!(b, full);
}

#[test]
fn nth_valid_move_skips_full_columns() {
    let mut g = BitboardGrid::new();
    assert_eq!(nth_valid_move(&g, 0), Some(0));
    assert_eq!(nth_valid_move(&g, 6), Some(6));
    assert_eq!(nth_valid_move(&g, 7), None);
    for _ in 0..6 {
        g.drop(1).unwrap();
    }
    assert_eq!(nth_valid_move(&g, 0), Some(0));
    assert_eq!(nth_valid_move(&g, 1), Some(2));
    assert_eq!(nth_valid_move(&g, 5), Some(6));
    assert_eq!(nth_valid_move(&g, 6), None);
    let mut d = GenericGrid::<2, 2, 3>::new();
    for x in [0, 0, 1, 1] {
        d.drop(x).unwrap();
    }
    assert_eq!(nth_valid_move(&d, 0), None);
}
