//! The two players of a game, absolute game outcomes, and the
//! point-of-view transform between them.

use vstd::prelude::*;

verus! {

/// One of the two players. Player `A` owns the lower half of the board and
/// moves first in a fresh game.
#[derive(Clone, Copy, Debug, PartialEq, Eq, Structural)]
pub enum Player {
    A,
    B,
}

impl Player {
    /// The numeric index of this player: `A` is 0 and `B` is 1.
    pub fn index(self) -> (r: u8)
        ensures
            r == self.index_spec(),
    {
        match self {
            Player::A => 0,
            Player::B => 1,
        }
    }

    pub open spec fn index_spec(self) -> int {
        match self {
            Player::A => 0,
            Player::B => 1,
        }
    }

    /// The opponent of this player.
    pub fn other(self) -> (r: Player)
        ensures
            r == self.other_spec(),
    {
        match self {
            Player::A => Player::B,
            Player::B => Player::A,
        }
    }

    pub open spec fn other_spec(self) -> Player {
        match self {
            Player::A => Player::B,
            Player::B => Player::A,
        }
    }

    /// The player with the given index; index 0 is `A`, every other value
    /// gives `B`'s side only for index 1.
    pub fn from_index(i: u8) -> (r: Player)
        requires
            i == 0 || i == 1,
        ensures
            r.index_spec() == i as int,
    {
        if i == 0 {
            Player::A
        } else {
            Player::B
        }
    }
}

/// The absolute outcome of a finished game: a win for one player, or a draw.
#[derive(Clone, Copy, Debug, PartialEq, Eq, Structural)]
pub enum Outcome {
    WonBy(Player),
    Draw,
}

/// The outcome of a finished game as seen from one player's point of view.
#[derive(Clone, Copy, Debug, PartialEq, Eq, Structural)]
pub enum OutcomeWDL {
    Win,
    Draw,
    Loss,
}

impl Outcome {
    /// View this absolute outcome from the point of view of `pov`:
    /// a win by `pov` is a `Win`, a win by the opponent a `Loss`.
    pub fn pov(self, pov: Player) -> (r: OutcomeWDL)
        ensures
            r == self.pov_spec(pov),
    {
        match self {
            Outcome::WonBy(player) => {
                if player == pov {
                    OutcomeWDL::Win
                } else {
                    OutcomeWDL::Loss
                }
            },
            Outcome::Draw => OutcomeWDL::Draw,
        }
    }

    pub open spec fn pov_spec(self, pov: Player) -> OutcomeWDL {
        match self {
            Outcome::WonBy(player) => if player == pov {
                OutcomeWDL::Win
            } else {
                OutcomeWDL::Loss
            },
            Outcome::Draw => OutcomeWDL::Draw,
        }
    }
}

impl OutcomeWDL {
    /// Undo the point-of-view transform: the absolute outcome that `pov`
    /// would describe with this relative outcome.
    pub fn un_pov(self, pov: Player) -> (r: Outcome)
        ensures
            r == self.un_pov_spec(pov),
    {
        match self {
            OutcomeWDL::Win => Outcome::WonBy(pov),
            OutcomeWDL::Draw => Outcome::Draw,
            OutcomeWDL::Loss => Outcome::WonBy(pov.other()),
        }
    }

    pub open spec fn un_pov_spec(self, pov: Player) -> Outcome {
        match self {
            OutcomeWDL::Win => Outcome::WonBy(pov),
            OutcomeWDL::Draw => Outcome::Draw,
            OutcomeWDL::Loss => Outcome::WonBy(pov.other_spec()),
        }
    }
}

/// The point-of-view transform loses no information: taking an absolute
/// outcome to either player's point of view and back yields the original.
pub proof fn lemma_pov_round_trip(o: Outcome, pov: Player)
    ensures
        o.pov_spec(pov).un_pov_spec(pov) == o,
{
}

} // verus!

