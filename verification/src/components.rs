//! The pieces the game is played with: bowls on the table, scheduled seed
//! relocations, and the actor — human or bot — that supplies each side's
//! moves.

use vstd::prelude::*;

use board_game::games::oware::OwareBoard;

use crate::bots::{
    bot_mcts_mv, bot_random_mv, bot_rollout_mv, mirror_bounded, mirror_done, mirror_moves,
};
use crate::oware::next_pos;

verus! {

/// A bowl on the table, by index: bowls `0..p` are player A's pits,
/// `p..2p` player B's, and `2p` and `2p + 1` the two score bowls.
#[derive(Clone, Copy, Debug, PartialEq, Eq, Structural)]
pub struct Bowl(pub usize);

impl Bowl {
    /// The index this bowl stands for.
    pub fn mv(&self) -> (r: usize)
        ensures
            r == self.0,
    {
        self.0
    }

    /// Whether this bowl has the given index.
    pub fn is(&self, value: usize) -> (r: bool)
        ensures
            r == (self.0 == value),
    {
        self.0 == value
    }

    /// The bowl that receives the seed after this one when sowing on a
    /// circle of `wrap` pit bowls: the following bowl, passing over the
    /// source bowl `skip`.
    pub fn next(&self, skip: &Self, wrap: usize) -> (r: Bowl)
        requires
            2 <= wrap,
            self.0 < wrap,
            skip.0 < wrap,
        ensures
            r.0 as int == next_pos(wrap as int, skip.0 as int, self.0 as int),
            r.0 < wrap,
            r.0 != skip.0,
    {
        let mut j = self.0 + 1;
        if j == wrap {
            j = 0;
        }
        if j == skip.0 {
            j = j + 1;
            if j == wrap {
                j = 0;
            }
        }
        proof {
            let ws = wrap as int;
            if self.0 + 1 < wrap {
                vstd::arithmetic::div_mod::lemma_small_mod((self.0 + 1) as nat, wrap as nat);
            } else {
                broadcast use vstd::arithmetic::div_mod::lemma_mod_self_0;

                assert((self.0 as int + 1) % ws == 0);
            }
            let jj = (self.0 as int + 1) % ws;
            if jj == skip.0 {
                if skip.0 + 1 < wrap {
                    vstd::arithmetic::div_mod::lemma_small_mod((skip.0 + 1) as nat, wrap as nat);
                } else {
                    broadcast use vstd::arithmetic::div_mod::lemma_mod_self_0;

                    assert((skip.0 as int + 1) % ws == 0);
                }
            }
        }
        Bowl(j)
    }
}

/// One scheduled seed relocation: the destination bowl, and the seed's
/// position in the cascade, which fixes its start delay.
#[derive(Clone, Copy, Debug, PartialEq, Eq, Structural)]
pub struct MoveBall(pub Bowl, pub usize);

/// A bot strategy: uniformly random, rollout simulation with a sample
/// budget, or Monte-Carlo tree search with an iteration budget and an
/// exploration weight. The minimax variant is a placeholder that no
/// shipped configuration selects.
#[derive(Clone, Copy, Debug, PartialEq, Eq, Hash, Structural)]
pub enum Ai {
    Random,
    Rollout(u32),
    Mcts(u32, u8),
    _MinMax,
}

/// The source of one side's moves: a bot strategy, or a human whose
/// moves arrive as input events.
#[derive(Clone, Copy, Debug, PartialEq, Eq, Structural)]
pub enum Actor {
    Bot(Ai),
    Human,
}

impl Actor {
    /// Whether this side is played by a human.
    pub fn is_human(&self) -> (r: bool)
        ensures
            r == (self is Human),
    {
        match self {
            Actor::Bot(_) => false,
            Actor::Human => true,
        }
    }

    /// The move this actor proposes for the position: `None` for a human,
    /// whose move comes from input instead. A bot, offered a live board
    /// with at least one move, always proposes one — but the proposal is
    /// only a suggestion: callers validate it against the verified rule
    /// engine before playing it.
    pub fn get_mv(&self, board: &OwareBoard<6>) -> (r: Option<usize>)
        requires
            !(self matches Actor::Bot(Ai::_MinMax)),
            self matches Actor::Bot(Ai::Mcts(i, _)) ==> i >= 1,
            self is Bot ==> !mirror_done(*board) && (exists|m: int|
                mirror_moves(*board).contains(m)) && mirror_bounded(*board),
        ensures
            self is Human ==> r is None,
            self is Bot ==> r is Some,
            r matches Some(m) ==> self is Bot && mirror_moves(*board).contains(m as int),
    {
        match self {
            Actor::Human => None,
            Actor::Bot(ai) => match ai {
                Ai::Random => bot_random_mv(board),
                Ai::Rollout(rollouts) => bot_rollout_mv(board, *rollouts),
                Ai::Mcts(iterations, exploration) => bot_mcts_mv(board, *iterations, *exploration),
                Ai::_MinMax => None,
            },
        }
    }
}

} // verus!
