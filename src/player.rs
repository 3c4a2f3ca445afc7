use vstd::prelude::*;

verus! {

/// A player, either P1 or P2. Games always start with P1.
#[derive(Copy, Clone, PartialEq, Eq, Structural, Debug, Hash)]
pub enum Player {
    P1,
    P2,
}

impl Player {
    /// The opponent of `self`.
    pub open spec fn other_spec(self) -> Player {
        match self {
            Player::P1 => Player::P2,
            Player::P2 => Player::P1,
        }
    }

    /// Returns the opponent of this player.
    pub fn other(&self) -> (r: Player)
        ensures
            r == self.other_spec(),
            r != *self,
    {
        match self {
            Player::P1 => Player::P2,
            Player::P2 => Player::P1,
        }
    }

    /// The glyph used to show this player's tokens: `X` for P1, `O` for P2.
    pub fn symbol(&self) -> (r: char)
        ensures
            r == (if *self == Player::P1 { 'X' } else { 'O' }),
    {
        match self {
            Player::P1 => 'X',
            Player::P2 => 'O',
        }
    }
}

} // verus!
