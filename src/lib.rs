pub mod bitboard;
pub mod controller;
pub mod generic;
pub mod grid;
pub mod player;
pub mod render;

pub use bitboard::BitboardGrid;
pub use controller::{PlayerController, nth_valid_move, play, play_turn};
pub use generic::GenericGrid;
pub use grid::{Grid, GridState, NoSpaceError, Status, Token};
pub use player::Player;
