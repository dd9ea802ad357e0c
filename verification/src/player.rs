//! The two sides of a game.

use vstd::prelude::*;

verus! {

/// One of the two players. `Player1` starts on the last row and races to row
/// zero; `Player2` starts on row zero and races to the last row.
#[derive(Debug, Clone, Copy, PartialEq, Eq, Structural, Hash)]
pub enum Player {
    Player1,
    Player2,
}

impl Player {
    /// The other player.
    pub open spec fn other(self) -> Player {
        match self {
            Player::Player1 => Player::Player2,
            Player::Player2 => Player::Player1,
        }
    }

    /// The name under which the player is shown.
    pub open spec fn label(self) -> Seq<char> {
        match self {
            Player::Player1 => "player1"@,
            Player::Player2 => "player2"@,
        }
    }

    /// The digit that stands for the player in a serialized state.
    pub open spec fn digit(self) -> char {
        match self {
            Player::Player1 => '1',
            Player::Player2 => '2',
        }
    }

    /// The other player.
    pub fn opponent(&self) -> (other: Player)
        ensures
            other == self.other(),
    {
        match self {
            Player::Player1 => Player::Player2,
            Player::Player2 => Player::Player1,
        }
    }

    /// The name under which the player is shown.
    pub fn name(&self) -> (label: &'static str)
        ensures
            label@ == self.label(),
    {
        match self {
            Player::Player1 => "player1",
            Player::Player2 => "player2",
        }
    }
}

/// Taking the opponent twice gives the player back.
pub proof fn lemma_opponent_involution(p: Player)
    ensures
        p.other().other() == p,
        p.other() != p,
{
}

} // verus!
