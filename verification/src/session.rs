//! The per-game session: the verified board, its `board_game` mirror for
//! the bots, the seeds on the table, and the turn/animation state machine
//! that drives them.
//!
//! One move flows through three steps, each invoked once per frame by the
//! embedding application. `play_tick` picks a move — from a click for the
//! human, from a bot otherwise — validates it against the rule engine and
//! marks the chosen bowl; it refuses to do anything while a move is
//! already marked or any seed is still in flight, so at most one move is
//! ever in flight. `sow` commits the marked move to both boards and
//! schedules one relocation per seed, each tagged with its position in
//! the cascade so that the seeds hop off one after another. Once all
//! flights have landed (`complete_flight`), `update_scores` migrates the
//! seeds of freshly captured pits to the capturing player's score pile.

use vstd::prelude::*;

use board_game::games::oware::OwareBoard;

use crate::bots::{mirror_bounded, ob_is_available, ob_new, ob_play, PITS};
use crate::components::{Ai, Bowl, MoveBall};
use crate::menu::OwareCfg;
use crate::oware::{next_pos, play_transition, sow_end, Oware};
use crate::player::Player;

verus! {

/// One seed on the table: the bowl it rests in, and — while it animates —
/// the relocation it is flying.
#[derive(Clone, Debug)]
pub struct Ball {
    /// The bowl this seed belongs to.
    pub at: usize,
    /// The relocation in progress, if the seed is mid-flight.
    pub flight: Option<MoveBall>,
}

/// How many of the first `upto` balls rest in `bowl`.
pub open spec fn count_at(balls: Seq<Ball>, bowl: int, upto: int) -> int
    decreases upto,
{
    if upto <= 0 {
        0
    } else {
        count_at(balls, bowl, upto - 1) + if balls[upto - 1].at == bowl {
            1int
        } else {
            0int
        }
    }
}

/// Counting reads only the prefix it is asked about.
pub proof fn lemma_count_at_congruent(s1: Seq<Ball>, s2: Seq<Ball>, bowl: int, upto: int)
    requires
        forall|j: int| 0 <= j < upto ==> (#[trigger] s1[j]).at == s2[j].at,
    ensures
        count_at(s1, bowl, upto) == count_at(s2, bowl, upto),
    decreases upto,
{
    if upto > 0 {
        lemma_count_at_congruent(s1, s2, bowl, upto - 1);
    }
}

/// Milliseconds a bot waits before it moves, so that it does not answer
/// the instant the previous seeds settle.
pub const BOT_COOLDOWN_MS: u64 = 1729;

/// Advance the bot's cooldown by one frame's elapsed time: the bot may
/// move — and the accumulator resets — exactly when the accumulated wait
/// reaches the cooldown; until then the wait is carried forward.
pub fn bot_cooldown(timer_ms: u64, elapsed_ms: u64) -> (r: (u64, bool))
    ensures
        r.1 == (timer_ms + elapsed_ms >= BOT_COOLDOWN_MS),
        r.1 ==> r.0 == 0,
        !r.1 ==> r.0 == timer_ms + elapsed_ms,
{
    if timer_ms >= BOT_COOLDOWN_MS {
        (0, true)
    } else {
        let remaining = BOT_COOLDOWN_MS - timer_ms;
        if elapsed_ms >= remaining {
            (0, true)
        } else {
            (timer_ms + elapsed_ms, false)
        }
    }
}

/// The delay before the `k`-th relocation of a cascade starts, in
/// milliseconds: the seeds hop off one after another, 243 ms apart.
pub fn delay_millis(k: u64) -> (r: u64)
    requires
        k <= 255,
    ensures
        r == 1 + k * 243,
{
    1 + k * 243
}

/// Seeds later in a cascade start strictly later.
pub proof fn lemma_delays_increase(i: u64, j: u64)
    requires
        i < j,
    ensures
        1 + i * 243 < 1 + j * 243,
{
    assert(i * 243 < j * 243) by (nonlinear_arith)
        requires
            i < j,
    ;
}

/// The relocation schedule for sowing `n` seeds from bowl `src` on a ring
/// of `wrap` pit bowls: exactly one relocation per seed, the `k`-th seed
/// flying to the `k + 1`-st sowing position — one bowl per seed, skipping
/// the source — and carrying cascade position `k`, so that start delays
/// strictly increase along the schedule.
pub fn sow_targets(src: usize, n: usize, wrap: usize) -> (r: Vec<MoveBall>)
    requires
        2 <= wrap,
        src < wrap,
    ensures
        r@.len() == n,
        forall|k: int| 0 <= k < n ==> (#[trigger] r@[k]).1 == k,
        forall|k: int|
            0 <= k < n ==> (#[trigger] r@[k]).0.0 as int == sow_end(
                wrap as int,
                src as int,
                src as int,
                (k + 1) as nat,
            ),
        forall|k: int| 0 <= k < n ==> (#[trigger] r@[k]).0.0 < wrap,
{
    let mut v: Vec<MoveBall> = Vec::new();
    let mut cur = Bowl(src);
    proof {
        assert(cur.0 as int == sow_end(wrap as int, src as int, src as int, 0));
    }
    while v.len() < n
        invariant
            v@.len() <= n,
            2 <= wrap,
            src < wrap,
            cur.0 < wrap,
            cur.0 as int == sow_end(wrap as int, src as int, src as int, v@.len() as nat),
            forall|k: int| 0 <= k < v@.len() ==> (#[trigger] v@[k]).1 == k,
            forall|k: int|
                0 <= k < v@.len() ==> (#[trigger] v@[k]).0.0 as int == sow_end(
                    wrap as int,
                    src as int,
                    src as int,
                    (k + 1) as nat,
                ),
            forall|k: int| 0 <= k < v@.len() ==> (#[trigger] v@[k]).0.0 < wrap,
        decreases n - v.len(),
    {
        proof {
            crate::oware::lemma_sow_end_snoc(
                wrap as int,
                src as int,
                src as int,
                v@.len() as nat,
            );
        }
        cur = cur.next(&Bowl(src), wrap);
        let k = v.len();
        v.push(MoveBall(cur, k));
    }
    v
}

/// A running game: configuration, the verified board, its `board_game`
/// mirror that the bots read, the seeds on the table, and the bowl marked
/// for sowing once a move has been accepted.
pub struct Session {
    /// The game configuration.
    pub cfg: OwareCfg,
    /// The authoritative, verified board.
    pub board: Oware,
    /// The seeds shown on the table.
    pub balls: Vec<Ball>,
    /// The bowl whose accepted move is waiting to be sown, if any.
    pub pending: Option<usize>,
    /// The `board_game` replica of the board that the bots read: it is
    /// given every accepted move the verified board plays. Its rules can
    /// differ from the verified ones in rare capture corners, so nothing
    /// is assumed about its contents, and every move a bot suggests is
    /// validated against `board` first.
    pub mirror: OwareBoard<6>,
}

impl Session {
    /// Whether any seed is mid-flight: the global busy flag that gates
    /// move acceptance and input focus.
    pub open spec fn busy_spec(self) -> bool {
        exists|i: int| 0 <= i < self.balls@.len() && (#[trigger] self.balls@[i]).flight is Some
    }

    /// A seed never leaves the table: it rests in, or flies to, one of
    /// the `2p` pit bowls or the two score bowls.
    pub open spec fn ball_ok(self, b: Ball) -> bool {
        &&& b.at < 2 * self.board.p + 2
        &&& (b.flight matches Some(mb) ==> mb.0.0 < 2 * self.board.p + 2)
    }

    /// A marked bowl always carries a move of the current mover that the
    /// rule engine has accepted.
    pub open spec fn pending_ok(self) -> bool {
        self.pending matches Some(b) ==> {
            let m = self.board.mover();
            &&& PITS * m <= b < PITS * m + PITS
            &&& self.board.available(b - PITS * m)
        }
    }

    /// The session invariant: the board is well-formed and live, on the
    /// standard six pits per player; the mirror fits its byte counters,
    /// so the bots can always be consulted; every seed is somewhere on
    /// the table; a marked move is a validated move of the mover; and a
    /// move is never marked while seeds are still flying.
    pub open spec fn inv(self) -> bool {
        &&& self.board.wf()
        &&& self.board.progress()
        &&& self.board.p == PITS
        &&& mirror_bounded(self.mirror)
        &&& forall|i: int| 0 <= i < self.balls@.len() ==> self.ball_ok(#[trigger] self.balls@[i])
        &&& self.pending_ok()
        &&& !(self.pending is Some && self.busy_spec())
    }

    /// Lay out the table for a fresh game: `init_seeds` seeds resting in
    /// each of the twelve pit bowls, none animating.
    fn fresh_balls(init_seeds: u8) -> (r: Vec<Ball>)
        requires
            init_seeds <= 21,
        ensures
            r@.len() == 2 * PITS * init_seeds,
            forall|j: int| 0 <= j < r@.len() ==> (#[trigger] r@[j]).flight is None,
            forall|j: int| 0 <= j < r@.len() ==> (#[trigger] r@[j]).at < 2 * PITS,
            forall|b: int|
                0 <= b < 2 * PITS ==> count_at(r@, b, r@.len() as int) == init_seeds,
    {
        let mut v: Vec<Ball> = Vec::new();
        let mut b: usize = 0;
        while b < 2 * PITS
            invariant
                b <= 2 * PITS,
                init_seeds <= 21,
                v@.len() == b * init_seeds,
                forall|j: int| 0 <= j < v@.len() ==> (#[trigger] v@[j]).flight is None,
                forall|j: int| 0 <= j < v@.len() ==> (#[trigger] v@[j]).at < b,
                forall|t: int| 0 <= t < b ==> count_at(v@, t, v@.len() as int) == init_seeds,
                forall|t: int| b <= t < 2 * PITS ==> count_at(v@, t, v@.len() as int) == 0,
            decreases 2 * PITS - b,
        {
            let mut k: usize = 0;
            while k < init_seeds as usize
                invariant
                    b < 2 * PITS,
                    k <= init_seeds,
                    init_seeds <= 21,
                    v@.len() == b * init_seeds + k,
                    forall|j: int| 0 <= j < v@.len() ==> (#[trigger] v@[j]).flight is None,
                    forall|j: int| 0 <= j < v@.len() ==> (#[trigger] v@[j]).at <= b,
                    forall|t: int| 0 <= t < b ==> count_at(v@, t, v@.len() as int) == init_seeds,
                    count_at(v@, b as int, v@.len() as int) == k,
                    forall|t: int|
                        b < t < 2 * PITS ==> count_at(v@, t, v@.len() as int) == 0,
                decreases init_seeds - k,
            {
                let ghost pre = v@;
                v.push(Ball { at: b, flight: None });
                proof {
                    assert forall|t: int| 0 <= t < 2 * PITS implies count_at(
                        v@,
                        t,
                        v@.len() as int,
                    ) == count_at(pre, t, pre.len() as int) + (if t == b {
                        1int
                    } else {
                        0int
                    }) by {
                        assert(v@.len() as int == pre.len() + 1);
                        lemma_count_at_congruent(v@, pre, t, pre.len() as int);
                    }
                }
                k = k + 1;
            }
            proof {
                let bb = b as int;
                let ii = init_seeds as int;
                assert((bb + 1) * ii == bb * ii + ii) by (nonlinear_arith);
            }
            b = b + 1;
        }
        v
    }

    /// A session for a fresh game with the given configuration: a new
    /// board with the configured seeds per pit, a matching mirror for the
    /// bots, all seeds resting in their pits, nothing pending and nothing
    /// animating; the new-game request and any previous outcome are
    /// cleared. The seed count is capped at 21 per pit — the byte-sized
    /// counters' capacity for twelve pits; the menus offer three to five.
    pub fn new(cfg: OwareCfg) -> (s: Session)
        requires
            1 <= cfg.init_seeds <= 21,
        ensures
            s.inv(),
            !s.busy_spec(),
            s.pending is None,
            s.cfg == (OwareCfg { new_game: false, outcome: None, ..cfg }),
            s.board.p == PITS,
            s.board.init_seeds == cfg.init_seeds,
            s.board.next == Player::A,
            s.board.outcome is None,
            s.board.score_a == 0,
            s.board.score_b == 0,
            forall|i: int| 0 <= i < 2 * PITS ==> s.board.pits@[i] == cfg.init_seeds,
            s.balls@.len() == 2 * PITS * cfg.init_seeds,
            forall|j: int| 0 <= j < s.balls@.len() ==> (#[trigger] s.balls@[j]).flight is None,
            forall|b: int|
                0 <= b < 2 * PITS ==> count_at(s.balls@, b, s.balls@.len() as int)
                    == cfg.init_seeds,
    {
        proof {
            let ii = cfg.init_seeds as int;
            assert(2 * (PITS as int) * ii <= 255) by (nonlinear_arith)
                requires
                    1 <= ii <= 21,
                    PITS == 6,
            ;
        }
        let board = Oware::new(PITS, cfg.init_seeds);
        let mirror = ob_new(cfg.init_seeds);
        let balls = Self::fresh_balls(cfg.init_seeds);
        let mut cfg2 = cfg;
        cfg2.new_game = false;
        cfg2.outcome = None;
        Session { cfg: cfg2, board, balls, pending: None, mirror }
    }

    /// Honour a pending new-game request: rebuild the board with the
    /// configured starting seeds and reset every ball and every piece of
    /// animation and turn state, whatever state the table was in. Without
    /// a request this changes nothing. The configured seed count must fit
    /// the byte-sized counters: at most 21 per pit.
    pub fn spawn_board(&mut self)
        requires
            1 <= old(self).cfg.init_seeds <= 21,
        ensures
            !old(self).cfg.new_game ==> *final(self) == *old(self),
            old(self).cfg.new_game ==> ({
                let s = *final(self);
                &&& s.inv()
                &&& !s.busy_spec()
                &&& s.pending is None
                &&& s.cfg == (OwareCfg { new_game: false, outcome: None, ..old(self).cfg })
                &&& s.board.p == PITS
                &&& s.board.init_seeds == old(self).cfg.init_seeds
                &&& s.board.next == Player::A
                &&& s.board.outcome is None
                &&& s.board.score_a == 0
                &&& s.board.score_b == 0
                &&& (forall|i: int|
                    0 <= i < 2 * PITS ==> s.board.pits@[i] == old(self).cfg.init_seeds)
                &&& s.balls@.len() == 2 * PITS * old(self).cfg.init_seeds
                &&& (forall|j: int|
                    0 <= j < s.balls@.len() ==> (#[trigger] s.balls@[j]).flight is None)
                &&& (forall|b: int|
                    0 <= b < 2 * PITS ==> count_at(s.balls@, b, s.balls@.len() as int) == old(self).cfg.init_seeds)
            }),
    {
        if !self.cfg.new_game {
            return ;
        }
        let fresh = Self::new(self.cfg);
        *self = fresh;
    }

    /// Whether any seed is currently animating.
    pub fn moving(&self) -> (r: bool)
        ensures
            r == self.busy_spec(),
    {
        let mut i: usize = 0;
        while i < self.balls.len()
            invariant
                i <= self.balls@.len(),
                forall|j: int| 0 <= j < i ==> !((#[trigger] self.balls@[j]).flight is Some),
            decreases self.balls@.len() - i,
        {
            if self.balls[i].flight.is_some() {
                return true;
            }
            i = i + 1;
        }
        false
    }

    /// Offer a move for the player to move: it is accepted — the mover's
    /// bowl marked for sowing — exactly when no move is already marked,
    /// no seed is flying, and the rule engine deems the move available;
    /// in every other case nothing changes.
    pub fn accept(&mut self, mv: usize)
        requires
            old(self).inv(),
        ensures
            final(self).inv(),
            final(self).cfg == old(self).cfg,
            final(self).board == old(self).board,
            final(self).balls == old(self).balls,
            final(self).mirror == old(self).mirror,
            ({
                let m = old(self).board.mover();
                if old(self).pending is None && !old(self).busy_spec() && old(
                    self,
                ).board.available(mv as int) {
                    final(self).pending matches Some(b) && b == PITS * m + mv
                } else {
                    *final(self) == *old(self)
                }
            }),
    {
        if self.pending.is_some() {
            return ;
        }
        if self.moving() {
            return ;
        }
        if self.board.is_available_move(mv) {
            let base = match self.board.next_player() {
                Player::A => 0,
                Player::B => PITS,
            };
            self.pending = Some(base + mv);
        }
    }

    /// One acceptance step: if no move is pending, no seed is flying and
    /// the game is not over, ask the mover's actor for a move — the
    /// clicked bowl for a human, the bot's proposal otherwise — validate
    /// it against the rule engine, and mark the chosen bowl for sowing.
    /// Everything else is left untouched, and while a move is pending or
    /// animating, nothing at all is accepted.
    pub fn play_tick(&mut self, click: Option<usize>)
        requires
            old(self).inv(),
            !(old(self).cfg.ai == Ai::_MinMax),
            (old(self).cfg.ai matches Ai::Mcts(i, _) ==> i >= 1),
        ensures
            final(self).inv(),
            final(self).cfg == old(self).cfg,
            final(self).board == old(self).board,
            final(self).balls == old(self).balls,
            final(self).mirror == old(self).mirror,
            old(self).pending is Some || old(self).busy_spec() || old(self).board.outcome is Some
                ==> *final(self) == *old(self),
            final(self).pending == old(self).pending || ({
                &&& old(self).pending is None
                &&& !old(self).busy_spec()
                &&& old(self).board.outcome is None
                &&& final(self).pending matches Some(b) && ({
                    let m = old(self).board.mover();
                    &&& PITS * m <= b < PITS * m + PITS
                    &&& old(self).board.available(b - PITS * m)
                })
            }),
            ({
                let m = old(self).board.mover();
                &&& old(self).pending is None
                &&& !old(self).busy_spec()
                &&& old(self).board.outcome is None
                &&& m == old(self).cfg.human_index()
                &&& click matches Some(b) && PITS * m <= b < PITS * m + PITS && old(
                    self,
                ).board.available(b - PITS * m)
            }) ==> final(self).pending == click,
    {
        if self.board.is_done() {
            return ;
        }
        if self.moving() {
            return ;
        }
        if self.pending.is_some() {
            return ;
        }
        let mover = self.board.next_player();
        let actor = self.cfg.get_actor(mover);
        let mv_opt: Option<usize> = if actor.is_human() {
            // a human move arrives as a click on one of their own bowls
            match click {
                Some(b) => {
                    let lo = match mover {
                        Player::A => 0,
                        Player::B => PITS,
                    };
                    if lo <= b && b < lo + PITS {
                        Some(b - lo)
                    } else {
                        None
                    }
                },
                None => None,
            }
        } else {
            // ask the bot, but only while its board offers it a move
            let mut any = false;
            let mut t: usize = 0;
            while t < PITS
                invariant
                    t <= PITS,
                    any ==> !crate::bots::mirror_done(self.mirror) && (exists|m: int|
                        crate::bots::mirror_moves(self.mirror).contains(m)),
                decreases PITS - t,
            {
                if ob_is_available(&self.mirror, t) {
                    any = true;
                }
                t = t + 1;
            }
            if any {
                actor.get_mv(&self.mirror)
            } else {
                None
            }
        };
        if let Some(mv) = mv_opt {
            self.accept(mv);
        }
    }

    /// One sowing step: if a bowl is marked, commit its move to the
    /// verified board and to the bots' mirror, and schedule the flight of
    /// every seed resting in that bowl — the `k`-th such seed flies to
    /// the `k + 1`-st sowing position with cascade position `k`. Without
    /// a marked bowl this is a no-op.
    pub fn sow(&mut self)
        requires
            old(self).inv(),
        ensures
            final(self).inv(),
            final(self).cfg == old(self).cfg,
            final(self).balls@.len() == old(self).balls@.len(),
            old(self).pending is None ==> *final(self) == *old(self),
            old(self).pending matches Some(src) ==> ({
                let m = old(self).board.mover();
                let balls0 = old(self).balls@;
                &&& final(self).pending is None
                &&& play_transition(old(self).board, final(self).board, src - PITS * m)
                &&& (forall|i: int|
                    0 <= i < balls0.len() && (#[trigger] balls0[i]).at != src ==> final(self).balls@[i] == balls0[i])
                &&& (forall|i: int|
                    0 <= i < balls0.len() && (#[trigger] balls0[i]).at == src ==> ({
                        let k = count_at(balls0, src as int, i);
                        let nb = final(self).balls@[i];
                        &&& nb.at == src
                        &&& nb.flight matches Some(mb)
                        &&& mb.1 == k
                        &&& mb.0.0 as int == sow_end(
                            2 * PITS as int,
                            src as int,
                            src as int,
                            (k + 1) as nat,
                        )
                    }))
            }),
    {
        let src = match self.pending {
            Some(s) => s,
            None => {
                return ;
            },
        };
        self.pending = None;
        let mv = if src >= PITS {
            src - PITS
        } else {
            src
        };
        // count the seeds resting in the source bowl
        let ghost balls0 = self.balls@;
        let mut cnt: usize = 0;
        let mut i: usize = 0;
        while i < self.balls.len()
            invariant
                i <= balls0.len(),
                self.balls@ == balls0,
                cnt == count_at(balls0, src as int, i as int),
                cnt <= i,
            decreases balls0.len() - i,
        {
            if self.balls[i].at == src {
                cnt = cnt + 1;
            }
            i = i + 1;
        }
        let targets = sow_targets(src, cnt, 2 * PITS);
        // hand each resting seed of the bowl its relocation
        let mut j: usize = 0;
        let mut k: usize = 0;
        while j < self.balls.len()
            invariant
                old(self).inv(),
                self.board == old(self).board,
                self.cfg == old(self).cfg,
                self.mirror == old(self).mirror,
                self.pending is None,
                j <= balls0.len(),
                self.balls@.len() == balls0.len(),
                k == count_at(balls0, src as int, j as int),
                k <= j,
                cnt == count_at(balls0, src as int, balls0.len() as int),
                targets@.len() == cnt,
                src < 2 * PITS,
                forall|t: int| 0 <= t < cnt ==> (#[trigger] targets@[t]).1 == t,
                forall|t: int|
                    0 <= t < cnt ==> (#[trigger] targets@[t]).0.0 as int == sow_end(
                        2 * PITS as int,
                        src as int,
                        src as int,
                        (t + 1) as nat,
                    ),
                forall|t: int| 0 <= t < cnt ==> (#[trigger] targets@[t]).0.0 < 2 * PITS,
                forall|t: int|
                    j <= t < balls0.len() ==> self.balls@[t] == balls0[t],
                forall|t: int|
                    0 <= t < j && (#[trigger] balls0[t]).at != src ==> self.balls@[t] == balls0[t],
                forall|t: int|
                    0 <= t < j && (#[trigger] balls0[t]).at == src ==> ({
                        let kk = count_at(balls0, src as int, t);
                        let nb = self.balls@[t];
                        &&& nb.at == src
                        &&& nb.flight matches Some(mb)
                        &&& mb.1 == kk
                        &&& mb.0.0 as int == sow_end(
                            2 * PITS as int,
                            src as int,
                            src as int,
                            (kk + 1) as nat,
                        )
                    }),
            decreases balls0.len() - j,
        {
            if self.balls[j].at == src {
                proof {
                    assert(count_at(balls0, src as int, j as int + 1) == count_at(
                        balls0,
                        src as int,
                        j as int,
                    ) + 1);
                    lemma_count_at_mono(balls0, src as int, j as int + 1, balls0.len() as int);
                }
                let tgt = targets[k];
                self.balls.set(j, Ball { at: src, flight: Some(tgt) });
                k = k + 1;
            }
            j = j + 1;
        }
        // commit the move: the engine is authoritative, the mirror tags
        // along for the bots
        self.board.play(mv);
        let _ = ob_play(&mut self.mirror, mv);
        proof {
            assert forall|t: int| 0 <= t < self.balls@.len() implies self.ball_ok(
                #[trigger] self.balls@[t],
            ) by {
                if balls0[t].at == src {
                    lemma_count_at_mono(balls0, src as int, 0, t);
                    crate::oware::lemma_sow_end_bounds(
                        2 * PITS as int,
                        src as int,
                        src as int,
                        (count_at(balls0, src as int, t) + 1) as nat,
                    );
                }
            }
        }
    }

    /// Land one flight: the seed settles in its destination bowl and
    /// stops animating. Everything else is untouched.
    pub fn complete_flight(&mut self, i: usize)
        requires
            old(self).inv(),
            i < old(self).balls@.len(),
            old(self).balls@[i as int].flight is Some,
        ensures
            final(self).inv(),
            final(self).cfg == old(self).cfg,
            final(self).board == old(self).board,
            final(self).pending == old(self).pending,
            final(self).mirror == old(self).mirror,
            final(self).balls@.len() == old(self).balls@.len(),
            ({
                let mb = old(self).balls@[i as int].flight->Some_0;
                final(self).balls@[i as int] == (Ball { at: mb.0.0, flight: None })
            }),
            forall|t: int|
                0 <= t < old(self).balls@.len() && t != i ==> final(self).balls@[t] == old(self).balls@[t],
    {
        let mb = match &self.balls[i].flight {
            Some(mb) => *mb,
            None => {
                return ;
            },
        };
        self.balls.set(i, Ball { at: mb.0.0, flight: None });
    }

    /// One settling step: once nothing is animating and no move is
    /// pending, the seeds still shown in pits that the last move emptied
    /// on the new mover's side — the pits the move captured or swept —
    /// fly to the capturing player's score bowl, each again staggered by
    /// its position among its bowl's seeds. Anywhere else this is a
    /// no-op.
    pub fn update_scores(&mut self)
        requires
            old(self).inv(),
        ensures
            final(self).inv(),
            final(self).cfg == old(self).cfg,
            final(self).board == old(self).board,
            final(self).pending == old(self).pending,
            final(self).mirror == old(self).mirror,
            final(self).balls@.len() == old(self).balls@.len(),
            old(self).busy_spec() || old(self).pending is Some ==> *final(self) == *old(self),
            ({
                let b0 = old(self).balls@;
                let dest = 2 * PITS + (1 - old(self).board.mover());
                forall|t: int|
                    0 <= t < b0.len() ==> final(self).balls@[t] == (if !old(self).busy_spec()
                        && old(self).pending is None && old(self).settles(
                        (#[trigger] b0[t]).at,
                    ) {
                        Ball {
                            at: b0[t].at,
                            flight: Some(
                                MoveBall(Bowl(dest as usize), count_at(b0, b0[t].at as int, t) as usize),
                            ),
                        }
                    } else {
                        b0[t]
                    })
            }),
    {
        if self.moving() {
            return ;
        }
        if self.pending.is_some() {
            return ;
        }
        let ghost b0 = self.balls@;
        let other = self.board.next_player().other();
        let dest = 2 * PITS + (other.index() as usize);
        let mut i: usize = 0;
        while i < self.balls.len()
            invariant
                self.inv(),
                self.cfg == old(self).cfg,
                self.board == old(self).board,
                self.pending == old(self).pending,
                self.mirror == old(self).mirror,
                self.pending is None,
                b0 == old(self).balls@,
                self.balls@.len() == b0.len(),
                i <= b0.len(),
                dest == 2 * PITS + (1 - self.board.mover()),
                dest < 2 * PITS + 2,
                forall|t: int| i <= t < b0.len() ==> self.balls@[t] == b0[t],
                forall|t: int|
                    0 <= t < i ==> self.balls@[t] == (if old(self).settles(
                        (#[trigger] b0[t]).at,
                    ) {
                        Ball {
                            at: b0[t].at,
                            flight: Some(
                                MoveBall(Bowl(dest), count_at(b0, b0[t].at as int, t) as usize),
                            ),
                        }
                    } else {
                        b0[t]
                    }),
            decreases b0.len() - i,
        {
            let at = self.balls[i].at;
            let cond = if at < 2 * PITS {
                let bowl = Bowl(at);
                self.board.seeds_in(&bowl) == 0 && self.board.is_player_bowl(&bowl)
            } else {
                false
            };
            if cond {
                // this seed's rank among its bowl's seeds staggers its flight
                let mut k: usize = 0;
                let mut j: usize = 0;
                while j < i
                    invariant
                        j <= i,
                        i < b0.len(),
                        self.balls@.len() == b0.len(),
                        forall|t: int| i <= t < b0.len() ==> self.balls@[t] == b0[t],
                        forall|t: int| 0 <= t < b0.len() ==> (#[trigger] self.balls@[t]).at == b0[t].at,
                        k == count_at(b0, b0[i as int].at as int, j as int),
                        k <= j,
                        at == b0[i as int].at,
                    decreases i - j,
                {
                    if self.balls[j].at == at {
                        k = k + 1;
                    }
                    j = j + 1;
                }
                self.balls.set(i, Ball { at, flight: Some(MoveBall(Bowl(dest), k)) });
            }
            i = i + 1;
        }
    }

    /// The number of seeds currently shown in a bowl: what the display
    /// layer prints beside each bowl.
    pub fn shown_seeds(&self, bowl: usize) -> (r: usize)
        ensures
            r as int == count_at(self.balls@, bowl as int, self.balls@.len() as int),
    {
        let mut cnt: usize = 0;
        let mut i: usize = 0;
        while i < self.balls.len()
            invariant
                i <= self.balls@.len(),
                cnt == count_at(self.balls@, bowl as int, i as int),
                cnt <= i,
            decreases self.balls@.len() - i,
        {
            if self.balls[i].at == bowl {
                cnt = cnt + 1;
            }
            i = i + 1;
        }
        cnt
    }

    /// Wrap up a finished game: record the board's outcome in the
    /// configuration so the menus can show it. The caller then leaves the
    /// game for the menu.
    pub fn conclude_game(&mut self)
        ensures
            final(self).cfg == (OwareCfg { outcome: old(self).board.outcome, ..old(self).cfg }),
            final(self).board == old(self).board,
            final(self).balls == old(self).balls,
            final(self).pending == old(self).pending,
            final(self).mirror == old(self).mirror,
    {
        self.cfg.outcome = self.board.outcome();
    }

    /// Whether a bowl's remaining seeds settle to the score pile after a
    /// move: it is one of the new mover's pit bowls and the board shows
    /// it empty.
    pub open spec fn settles(self, at: usize) -> bool {
        &&& at < 2 * self.board.p
        &&& self.board.pits@[at as int] == 0
        &&& (if self.board.next is A {
            at < self.board.p
        } else {
            self.board.p <= at < 2 * self.board.p
        })
    }
}

/// The busy flag holds until the last relocation of a cascade settles:
/// landing one flight leaves the session busy exactly while some other
/// seed is still up, and clear once the landed flight was the last one.
pub proof fn lemma_busy_until_last(pre: Session, post: Session, i: int)
    requires
        0 <= i < pre.balls@.len(),
        post.balls@.len() == pre.balls@.len(),
        post.balls@[i].flight is None,
        forall|t: int| 0 <= t < pre.balls@.len() && t != i ==> post.balls@[t] == pre.balls@[t],
    ensures
        post.busy_spec() <==> exists|j: int|
            0 <= j < pre.balls@.len() && j != i && (#[trigger] pre.balls@[j]).flight is Some,
{
    if post.busy_spec() {
        let j = choose|j: int|
            0 <= j < post.balls@.len() && (#[trigger] post.balls@[j]).flight is Some;
        assert(pre.balls@[j].flight is Some);
    }
    if exists|j: int|
        0 <= j < pre.balls@.len() && j != i && (#[trigger] pre.balls@[j]).flight is Some {
        let j = choose|j: int|
            0 <= j < pre.balls@.len() && j != i && (#[trigger] pre.balls@[j]).flight is Some;
        assert(post.balls@[j].flight is Some);
    }
}

/// Counting over a longer prefix never counts less.
pub proof fn lemma_count_at_mono(balls: Seq<Ball>, bowl: int, a: int, b: int)
    requires
        a <= b,
    ensures
        count_at(balls, bowl, a) <= count_at(balls, bowl, b),
        count_at(balls, bowl, b) <= count_at(balls, bowl, a) + (b - a),
    decreases b - a,
{
    if a < b {
        lemma_count_at_mono(balls, bowl, a, b - 1);
    }
}

} // verus!
