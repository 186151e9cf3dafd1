//! The trusted boundary to the `board_game` crate.
//!
//! The verified engine in this crate has its own board representation; the
//! bot opponents, however, come from `board_game` and work on that crate's
//! `OwareBoard`. The session therefore keeps an `OwareBoard` mirror of the
//! verified board, replays every accepted move on it, and hands it to the
//! bots here. A bot's answer is never trusted: the caller re-validates it
//! against the verified engine before accepting the move.
//!
//! Everything in this module is a trusted item: Verus believes the contracts
//! below without reading the bodies, so they state no more than what the
//! `board_game` sources plainly show.

use vstd::prelude::*;

use board_game::ai::mcts::MCTSBot;
use board_game::ai::simple::{RandomBot, RolloutBot};
use board_game::ai::Bot;
use board_game::board::Board;
use board_game::games::oware::OwareBoard;

verus! {

/// The number of pits per player on the standard board this game ships with.
pub const PITS: usize = 6;

#[verifier::external_type_specification]
#[verifier::external_body]
pub struct ExOwareBoard<const PITS_PER_PLAYER: usize>(OwareBoard<PITS_PER_PLAYER>);

/// Whether a mirror board is done: `board_game` sets an outcome as part of
/// playing a move, and a done board refuses every further query.
pub uninterp spec fn mirror_done(b: OwareBoard<6>) -> bool;

/// The set of moves that a mirror board reports as available while it is
/// not done.
pub uninterp spec fn mirror_moves(b: OwareBoard<6>) -> Set<int>;

/// Whether the board's game fits byte-sized counters: the board was built
/// with at most 21 seeds per pit, so the 252 seeds of its game keep every
/// pit, score and total in `board_game`'s `u8` arithmetic below 256.
/// Playing moves conserves the total, so the property persists.
pub uninterp spec fn mirror_bounded(b: OwareBoard<6>) -> bool;

/// Relies on `board_game`'s `OwareBoard::new`: a fresh board with
/// `init_seeds` seeds in every pit, no outcome, and player A to move. With
/// at least one seed per pit every pit of the mover is a legal move. The
/// seed count is capped so that the board's byte arithmetic can never
/// overflow when its moves are played.
#[verifier::external_body]
pub fn ob_new(init_seeds: u8) -> (r: OwareBoard<6>)
    requires
        1 <= init_seeds <= 21,
    ensures
        !mirror_done(r),
        mirror_moves(r).contains(0),
        mirror_bounded(r),
{
    OwareBoard::new(init_seeds)
}

/// Relies on `board_game`'s `Board::play` for `OwareBoard`: plays a move on
/// the mirror, reporting whether the crate accepted it. The board must fit
/// its byte counters, since `play` adds pit and score bytes; it conserves
/// the total, so the bound survives the move. Nothing else is assumed
/// about the resulting position; callers re-query the mirror instead.
#[verifier::external_body]
pub fn ob_play(b: &mut OwareBoard<6>, mv: usize) -> (r: bool)
    requires
        mirror_bounded(*old(b)),
    ensures
        mirror_bounded(*final(b)),
{
    b.play(mv).is_ok()
}

/// Relies on `board_game`'s `Board::is_available_move` for `OwareBoard`:
/// whether the mirror reports the move as available; a done board reports
/// every move as unavailable.
#[verifier::external_body]
pub fn ob_is_available(b: &OwareBoard<6>, mv: usize) -> (r: bool)
    ensures
        r == (!mirror_done(*b) && mirror_moves(*b).contains(mv as int)),
{
    match b.is_available_move(mv) {
        Ok(available) => available,
        Err(_) => false,
    }
}

/// Relies on `board_game`'s `RandomBot` and `rand::thread_rng`: a uniformly
/// random available move. The bot draws an index into the available moves,
/// so the board must not be done and must offer at least one move; on such
/// a board the draw always succeeds, so a move always comes back.
#[verifier::external_body]
pub fn bot_random_mv(b: &OwareBoard<6>) -> (r: Option<usize>)
    requires
        !mirror_done(*b),
        exists|m: int| mirror_moves(*b).contains(m),
    ensures
        r is Some,
        r matches Some(m) ==> mirror_moves(*b).contains(m as int),
{
    RandomBot::new(rand::thread_rng()).select_move(b).ok()
}

/// Relies on `board_game`'s `RolloutBot` and `rand::thread_rng`: the
/// available move with the best average random-playout score. The bot
/// divides its budget by the number of available moves before it checks
/// anything else, so the board must not be done and must offer at least
/// one move; its playouts replay moves on clones, so the board must also
/// fit its byte counters, and they assume every position they reach
/// offers a move while it is not done. Under those bounds a best move
/// always comes back.
#[verifier::external_body]
pub fn bot_rollout_mv(b: &OwareBoard<6>, rollouts: u32) -> (r: Option<usize>)
    requires
        !mirror_done(*b),
        exists|m: int| mirror_moves(*b).contains(m),
        mirror_bounded(*b),
    ensures
        r is Some,
        r matches Some(m) ==> mirror_moves(*b).contains(m as int),
{
    RolloutBot::new(rollouts, rand::thread_rng()).select_move(b).ok()
}

/// Relies on `board_game`'s `MCTSBot` and `rand::thread_rng`: the move
/// chosen by a Monte-Carlo tree search with the given iteration budget and
/// exploration weight. The bot asserts a positive iteration count and
/// expands at least one available move, so on a live board with a move it
/// always answers; its random playouts replay moves on clones, so the
/// board must fit its byte counters, and they assume every position they
/// reach offers a move while it is not done.
#[verifier::external_body]
pub fn bot_mcts_mv(b: &OwareBoard<6>, iterations: u32, exploration: u8) -> (r: Option<usize>)
    requires
        1 <= iterations,
        !mirror_done(*b),
        exists|m: int| mirror_moves(*b).contains(m),
        mirror_bounded(*b),
    ensures
        r is Some,
        r matches Some(m) ==> mirror_moves(*b).contains(m as int),
{
    MCTSBot::new(iterations as u64, exploration.into(), rand::thread_rng()).select_move(b).ok()
}

} // verus!
