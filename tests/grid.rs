use connect::{BitboardGrid, GenericGrid, Grid, NoSpaceError, Player, Status, Token};

type StandardGenericGrid = GenericGrid<7, 6, 4>;

fn no_space<G: Grid>(mut grid: G) {
    for _ in 0..6 {
        assert_eq!(Ok(Status::OnGoing), grid.drop(0));
    }
    assert!(!grid.has_space(0));
    assert_eq!(Err(NoSpaceError()), grid.drop(0));
}

fn win<G: Grid>(mut grid: G) {
    let mut i = 0;
    for _ in 0..6 {
        if i % 2 == 0 {
            assert_eq!(Ok(Status::OnGoing), grid.drop(0));
        } else {
            assert_eq!(Ok(Status::OnGoing), grid.drop(1));
        }
        i += 1;
    }
    assert_eq!(Ok(Status::Win(Player::P1)), grid.drop(0));
}

fn draw<G: Grid>(mut grid: G) {
    for x in [0, 2, 4] {
        let mut i = 0;
        for _ in 0..3 {
            if i % 2 == 0 {
                assert_eq!(Ok(Status::OnGoing), grid.drop(x));
                assert_eq!(Ok(Status::OnGoing), grid.drop(x + 1));
                assert_eq!(Ok(Status::OnGoing), grid.drop(x));
                assert_eq!(Ok(Status::OnGoing), grid.drop(x + 1));
            } else {
                assert_eq!(Ok(Status::OnGoing), grid.drop(x + 1));
                assert_eq!(Ok(Status::OnGoing), grid.drop(x));
                assert_eq!(Ok(Status::OnGoing), grid.drop(x + 1));
                assert_eq!(Ok(Status::OnGoing), grid.drop(x));
            }
            i += 1;
        }
    }
    for _ in 0..5 {
        assert_eq!(Ok(Status::OnGoing), grid.drop(6));
    }
    assert_eq!(Ok(Status::Draw), grid.drop(6));
    assert!(grid.valid_moves().is_empty());
}

#[test]
fn test_no_space_generic() {
    no_space(StandardGenericGrid::new());
}

#[test]
fn test_no_space_bitboard() {
    no_space(BitboardGrid::new());
}

#[test]
fn test_win_generic() {
    win(StandardGenericGrid::new());
}

#[test]
fn test_win_bitboard() {
    win(BitboardGrid::new());
}

#[test]
fn test_draw_generic() {
    draw(StandardGenericGrid::new());
}

#[test]
fn test_draw_bitboard() {
    draw(BitboardGrid::new());
}
