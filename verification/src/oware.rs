//! The verified Oware rule engine.
//!
//! A board holds `p` pits per player plus a captured-seed score for each
//! player. Pits are stored in one vector in absolute order: pit `i` of
//! player `A` at index `i`, pit `i` of player `B` at index `p + i`. The
//! rules, however, are naturally expressed relative to the player to move:
//! relative indices `0..p` are the mover's own pits and `p..2p` the
//! opponent's, in sowing (counter-clockwise) order. The spec functions in
//! this module model a position as that relative sequence of seed counts.
//!
//! A move takes all seeds from one of the mover's non-empty pits and sows
//! them one by one into the following pits, skipping the source pit on
//! every lap. If the last seed lands in an opponent pit and brings it to
//! two or three seeds, that pit and every directly preceding opponent pit
//! with two or three seeds are captured — unless the capture would strip
//! the opponent of every seed, in which case the move stands but nothing
//! is captured. A player who cannot be given any seed back is starved out:
//! the remaining seeds go to their owner and the game ends on the scores.

use vstd::prelude::*;

use crate::components::Bowl;
use crate::player::{Outcome, Player};

verus! {

// ---------------------------------------------------------------------------
// Sums of seed counts
// ---------------------------------------------------------------------------

/// The sum of `s[lo..hi]`.
pub open spec fn sum_range(s: Seq<int>, lo: int, hi: int) -> int
    decreases hi - lo,
{
    if lo >= hi {
        0
    } else {
        s[lo] + sum_range(s, lo + 1, hi)
    }
}

pub proof fn lemma_sum_range_split(s: Seq<int>, lo: int, mid: int, hi: int)
    requires
        lo <= mid <= hi,
    ensures
        sum_range(s, lo, hi) == sum_range(s, lo, mid) + sum_range(s, mid, hi),
    decreases mid - lo,
{
    if lo < mid {
        lemma_sum_range_split(s, lo + 1, mid, hi);
    }
}

pub proof fn lemma_sum_range_congruent(s1: Seq<int>, s2: Seq<int>, lo: int, hi: int)
    requires
        forall|j: int| lo <= j < hi ==> s1[j] == s2[j],
    ensures
        sum_range(s1, lo, hi) == sum_range(s2, lo, hi),
    decreases hi - lo,
{
    if lo < hi {
        lemma_sum_range_congruent(s1, s2, lo + 1, hi);
    }
}

pub proof fn lemma_sum_range_update(s: Seq<int>, i: int, v: int, lo: int, hi: int)
    requires
        0 <= lo,
        hi <= s.len(),
        0 <= i < s.len(),
    ensures
        sum_range(s.update(i, v), lo, hi) == sum_range(s, lo, hi) + if lo <= i < hi {
            v - s[i]
        } else {
            0
        },
    decreases hi - lo,
{
    if lo < hi {
        lemma_sum_range_update(s, i, v, lo + 1, hi);
    }
}

pub proof fn lemma_sum_range_nonneg(s: Seq<int>, lo: int, hi: int)
    requires
        forall|j: int| lo <= j < hi ==> s[j] >= 0,
    ensures
        sum_range(s, lo, hi) >= 0,
    decreases hi - lo,
{
    if lo < hi {
        lemma_sum_range_nonneg(s, lo + 1, hi);
    }
}

/// With non-negative entries, each entry is at most the sum over any range
/// containing it.
pub proof fn lemma_sum_range_elem(s: Seq<int>, lo: int, hi: int, i: int)
    requires
        forall|j: int| lo <= j < hi ==> s[j] >= 0,
        lo <= i < hi,
    ensures
        s[i] <= sum_range(s, lo, hi),
{
    lemma_sum_range_split(s, lo, i, hi);
    lemma_sum_range_split(s, i, i + 1, hi);
    lemma_sum_range_nonneg(s, lo, i);
    lemma_sum_range_nonneg(s, i + 1, hi);
}

pub proof fn lemma_sum_range_zero(s: Seq<int>, lo: int, hi: int)
    requires
        forall|j: int| lo <= j < hi ==> s[j] == 0,
    ensures
        sum_range(s, lo, hi) == 0,
    decreases hi - lo,
{
    if lo < hi {
        lemma_sum_range_zero(s, lo + 1, hi);
    }
}

pub proof fn lemma_sum_range_const(s: Seq<int>, c: int, lo: int, hi: int)
    requires
        forall|j: int| lo <= j < hi ==> s[j] == c,
    ensures
        sum_range(s, lo, hi) == c * (if hi >= lo { hi - lo } else { 0 }),
    decreases hi - lo,
{
    if lo < hi {
        lemma_sum_range_const(s, c, lo + 1, hi);
        assert(c * (hi - lo) == c + c * (hi - (lo + 1))) by (nonlinear_arith);
    }
}

// ---------------------------------------------------------------------------
// Sowing
// ---------------------------------------------------------------------------

/// The pit that receives the next seed when the previous one went to `i`,
/// on a board of `n` pits in all, never dropping into the source pit `src`.
pub open spec fn next_pos(n: int, src: int, i: int) -> int {
    let j = (i + 1) % n;
    if j == src {
        (j + 1) % n
    } else {
        j
    }
}

/// Sow `k` seeds, the first into the successor of `i`, skipping `src`.
pub open spec fn sow_pits(s: Seq<int>, src: int, i: int, k: nat) -> Seq<int>
    decreases k,
{
    if k == 0 {
        s
    } else {
        let nx = next_pos(s.len() as int, src, i);
        sow_pits(s.update(nx, s[nx] + 1), src, nx, (k - 1) as nat)
    }
}

/// The pit that receives the last of `k` seeds sown from `i` skipping
/// `src`; for zero seeds it is `i` itself.
pub open spec fn sow_end(n: int, src: int, i: int, k: nat) -> int
    decreases k,
{
    if k == 0 {
        i
    } else {
        sow_end(n, src, next_pos(n, src, i), (k - 1) as nat)
    }
}

pub proof fn lemma_next_pos_bounds(n: int, src: int, i: int)
    requires
        2 <= n,
        0 <= src < n,
        0 <= i < n,
    ensures
        0 <= next_pos(n, src, i) < n,
        next_pos(n, src, i) != src,
        i + 1 < n && i + 1 != src ==> next_pos(n, src, i) == i + 1,
{
    if i + 1 < n {
        vstd::arithmetic::div_mod::lemma_small_mod((i + 1) as nat, n as nat);
    } else {
        broadcast use vstd::arithmetic::div_mod::lemma_mod_self_0;

        assert((i + 1) % n == 0);
    }
    let j = (i + 1) % n;
    if j == src {
        if j + 1 < n {
            vstd::arithmetic::div_mod::lemma_small_mod((j + 1) as nat, n as nat);
        } else {
            broadcast use vstd::arithmetic::div_mod::lemma_mod_self_0;

            assert((j + 1) % n == 0);
        }
    }
}

pub proof fn lemma_sow_len(s: Seq<int>, src: int, i: int, k: nat)
    requires
        2 <= s.len(),
        0 <= src < s.len(),
        0 <= i < s.len(),
    ensures
        sow_pits(s, src, i, k).len() == s.len(),
    decreases k,
{
    if k > 0 {
        let nx = next_pos(s.len() as int, src, i);
        lemma_next_pos_bounds(s.len() as int, src, i);
        lemma_sow_len(s.update(nx, s[nx] + 1), src, nx, (k - 1) as nat);
    }
}

/// Sowing only ever adds seeds to a pit.
pub proof fn lemma_sow_mono(s: Seq<int>, src: int, i: int, k: nat, q: int)
    requires
        2 <= s.len(),
        0 <= src < s.len(),
        0 <= i < s.len(),
        0 <= q < s.len(),
    ensures
        sow_pits(s, src, i, k)[q] >= s[q],
    decreases k,
{
    if k > 0 {
        let n = s.len() as int;
        let nx = next_pos(n, src, i);
        lemma_next_pos_bounds(n, src, i);
        lemma_sow_mono(s.update(nx, s[nx] + 1), src, nx, (k - 1) as nat, q);
    }
}



pub proof fn lemma_sow_end_bounds(n: int, src: int, i: int, k: nat)
    requires
        2 <= n,
        0 <= src < n,
        0 <= i < n,
    ensures
        0 <= sow_end(n, src, i, k) < n,
        k >= 1 ==> sow_end(n, src, i, k) != src,
    decreases k,
{
    if k > 0 {
        lemma_next_pos_bounds(n, src, i);
        lemma_sow_end_bounds(n, src, next_pos(n, src, i), (k - 1) as nat);
    }
}


/// The pit after `k + 1` sowing steps is one step past the pit after `k`.
pub proof fn lemma_sow_end_snoc(n: int, src: int, i: int, k: nat)
    requires
        2 <= n,
        0 <= src < n,
        0 <= i < n,
    ensures
        sow_end(n, src, i, (k + 1) as nat) == next_pos(n, src, sow_end(n, src, i, k)),
    decreases k,
{
    let nx = next_pos(n, src, i);
    lemma_next_pos_bounds(n, src, i);
    if k == 0 {
        assert(sow_end(n, src, i, 1) == sow_end(n, src, nx, 0));
    } else {
        lemma_sow_end_snoc(n, src, nx, (k - 1) as nat);
        assert(sow_end(n, src, i, (k + 1) as nat) == sow_end(n, src, nx, k));
    }
}

/// After sowing at least one seed, the pit that received the last seed of
/// any non-empty prefix of the sowing holds at least one seed.
pub proof fn lemma_sow_end_positive(s: Seq<int>, src: int, i: int, k: nat, j: nat)
    requires
        2 <= s.len(),
        0 <= src < s.len(),
        0 <= i < s.len(),
        forall|q: int| 0 <= q < s.len() ==> s[q] >= 0,
        1 <= j <= k,
    ensures
        sow_pits(s, src, i, k)[sow_end(s.len() as int, src, i, j)] >= 1,
    decreases j,
{
    let n = s.len() as int;
    let nx = next_pos(n, src, i);
    lemma_next_pos_bounds(n, src, i);
    let s1 = s.update(nx, s[nx] + 1);
    assert(sow_pits(s, src, i, k) == sow_pits(s1, src, nx, (k - 1) as nat));
    if j == 1 {
        // the first seed lands in nx; the rest of the sowing only adds
        assert(sow_end(n, src, nx, 0) == nx);
        assert(sow_end(n, src, i, 1) == sow_end(n, src, nx, 0));
        lemma_sow_mono(s1, src, nx, (k - 1) as nat, nx);
    } else {
        assert(sow_end(n, src, i, j) == sow_end(n, src, nx, (j - 1) as nat));
        lemma_sow_end_positive(s1, src, nx, (k - 1) as nat, (j - 1) as nat);
    }
}

/// Without wrapping around, sowing advances one pit per seed.
pub proof fn lemma_sow_end_no_wrap(n: int, src: int, k: nat)
    requires
        2 <= n,
        0 <= src,
        src + k < n,
    ensures
        sow_end(n, src, src, k) == src + k,
    decreases k,
{
    if k > 0 {
        lemma_sow_end_no_wrap_from(n, src, src, k);
    }
}

proof fn lemma_sow_end_no_wrap_from(n: int, src: int, i: int, k: nat)
    requires
        2 <= n,
        0 <= src <= i,
        i + k < n,
    ensures
        sow_end(n, src, i, k) == i + k,
    decreases k,
{
    if k > 0 {
        vstd::arithmetic::div_mod::lemma_small_mod((i + 1) as nat, n as nat);
        lemma_sow_end_no_wrap_from(n, src, i + 1, (k - 1) as nat);
    }
}

// ---------------------------------------------------------------------------
// Capture
// ---------------------------------------------------------------------------

/// Starting from the pit `i` that received the last seed and walking
/// backwards, empty every opponent pit holding two or three seeds, and
/// stop at the first pit that does not. Opponent pits are `p..2p`.
pub open spec fn capture_run(s: Seq<int>, p: int, i: int) -> Seq<int>
    decreases i,
{
    if 1 <= p && p <= i && (s[i] == 2 || s[i] == 3) {
        capture_run(s.update(i, 0), p, i - 1)
    } else {
        s
    }
}

pub proof fn lemma_capture_len(s: Seq<int>, p: int, i: int)
    requires
        i < s.len(),
    ensures
        capture_run(s, p, i).len() == s.len(),
    decreases i,
{
    if 1 <= p && p <= i && (s[i] == 2 || s[i] == 3) {
        lemma_capture_len(s.update(i, 0), p, i - 1);
    }
}

/// Capturing only removes seeds, and only from opponent pits at or below
/// the landing pit.
pub proof fn lemma_capture_decreases(s: Seq<int>, p: int, i: int, q: int)
    requires
        0 <= q < s.len(),
        i < s.len(),
    ensures
        capture_run(s, p, i)[q] == s[q] || capture_run(s, p, i)[q] == 0,
        q < p || q > i ==> capture_run(s, p, i)[q] == s[q],
    decreases i,
{
    if 1 <= p && p <= i && (s[i] == 2 || s[i] == 3) {
        lemma_capture_decreases(s.update(i, 0), p, i - 1, q);
    }
}


// ---------------------------------------------------------------------------
// Position predicates (over mover-relative sequences)
// ---------------------------------------------------------------------------

/// The mover's own pits `0..p` are all empty.
pub open spec fn own_empty(s: Seq<int>, p: int) -> bool {
    forall|i: int| 0 <= i < p ==> s[i] == 0
}

/// The opponent's pits `p..2p` are all empty.
pub open spec fn opp_empty(s: Seq<int>, p: int) -> bool {
    forall|j: int| p <= j < 2 * p ==> s[j] == 0
}

/// Sowing opponent pit `j` (relative to its owner: pit `j - p`) would send
/// at least one seed across to the other side.
pub open spec fn overflows(s: Seq<int>, p: int, j: int) -> bool {
    (j - p) + s[j] >= p
}

/// The mover ends the move with no seeds, and no opponent move could ever
/// feed them: the starvation end of the game.
pub open spec fn starved(s: Seq<int>, p: int) -> bool {
    own_empty(s, p) && (forall|j: int| p <= j < 2 * p ==> !overflows(s, p, j))
}

/// Two lone seeds chasing each other forever: exactly two seeds remain, in
/// single-seed pits, the board's half-length apart (or one less), so that
/// neither player can ever force progress.
pub open spec fn stalemate(s: Seq<int>, p: int) -> bool {
    &&& sum_range(s, 0, 2 * p) == 2
    &&& (forall|j: int| 0 <= j < 2 * p ==> s[j] <= 1)
    &&& exists|f: int, l: int|
        0 <= f < l < 2 * p && s[f] == 1 && s[l] == 1 && (l - f == p - 1 || l - f == p)
}

/// Zero the opponent pits `p..2p`, keeping the mover's.
pub open spec fn clear_opp(s: Seq<int>, p: int) -> Seq<int> {
    Seq::new(s.len(), |j: int| if p <= j < 2 * p { 0 } else { s[j] })
}

/// Move legality over a mover-relative position, game-over aside: pit `i`
/// is one of the mover's and non-empty, and when the opponent is bare the
/// move reaches across and feeds them.
pub open spec fn avail_rel(s: Seq<int>, p: int, i: int) -> bool {
    &&& 0 <= i < p
    &&& if exists|j: int| p <= j < 2 * p && s[j] > 0 {
        s[i] > 0
    } else {
        i + s[i] >= p
    }
}

// ---------------------------------------------------------------------------
// The phases of a move
// ---------------------------------------------------------------------------

/// After sowing pit `mv`: its seeds are distributed one per pit, skipping
/// `mv` itself on every lap.
pub open spec fn sown(r0: Seq<int>, mv: int) -> Seq<int> {
    sow_pits(r0.update(mv, 0), mv, mv, r0[mv] as nat)
}

/// The pit that received the last sown seed.
pub open spec fn sow_last(r0: Seq<int>, mv: int) -> int {
    sow_end(r0.len() as int, mv, mv, r0[mv] as nat)
}

/// After the capture phase: the chain of opponent pits on two or three
/// seeds ending at the landing pit is emptied — unless that would leave
/// the opponent with nothing, in which case no capture happens.
pub open spec fn after_capture(r0: Seq<int>, p: int, mv: int) -> Seq<int> {
    let r1 = sown(r0, mv);
    let r2 = capture_run(r1, p, sow_last(r0, mv));
    if opp_empty(r2, p) {
        r1
    } else {
        r2
    }
}

/// The seeds the mover captures with this move.
pub open spec fn capture_gain(r0: Seq<int>, p: int, mv: int) -> int {
    sum_range(sown(r0, mv), p, 2 * p) - sum_range(after_capture(r0, p, mv), p, 2 * p)
}

/// After the starvation endgame: if the mover is left bare and cannot be
/// fed, the opponent's remaining seeds leave the board for the opponent's
/// score.
pub open spec fn after_starve(r0: Seq<int>, p: int, mv: int) -> Seq<int> {
    let r3 = after_capture(r0, p, mv);
    if starved(r3, p) {
        clear_opp(r3, p)
    } else {
        r3
    }
}

/// The seeds awarded to the opponent by the starvation endgame.
pub open spec fn starve_gain(r0: Seq<int>, p: int, mv: int) -> int {
    if starved(after_capture(r0, p, mv), p) {
        sum_range(after_capture(r0, p, mv), p, 2 * p)
    } else {
        0
    }
}

/// Whether the move ends in the two-lone-seeds stalemate, which clears the
/// board and awards one seed to each player.
pub open spec fn stale_after(r0: Seq<int>, p: int, mv: int) -> bool {
    stalemate(after_starve(r0, p, mv), p)
}

/// The mover-relative pit contents after the whole move.
pub open spec fn play_pits(r0: Seq<int>, p: int, mv: int) -> Seq<int> {
    let r4 = after_starve(r0, p, mv);
    if stalemate(r4, p) {
        Seq::new(r4.len(), |j: int| 0)
    } else {
        r4
    }
}

/// What the move adds to the mover's score.
pub open spec fn mover_gain(r0: Seq<int>, p: int, mv: int) -> int {
    capture_gain(r0, p, mv) + if stale_after(r0, p, mv) {
        1int
    } else {
        0int
    }
}

/// What the move adds to the opponent's score.
pub open spec fn opponent_gain(r0: Seq<int>, p: int, mv: int) -> int {
    starve_gain(r0, p, mv) + if stale_after(r0, p, mv) {
        1int
    } else {
        0int
    }
}

/// The outcome read off the two scores: a player holding more than half
/// the seeds has won; both on exactly half is a draw; anything else means
/// the game goes on.
pub open spec fn outcome_of_scores(sa: int, sb: int, half: int) -> Option<Outcome> {
    if sa > half {
        Some(Outcome::WonBy(Player::A))
    } else if sb > half {
        Some(Outcome::WonBy(Player::B))
    } else if sa == half && sb == half {
        Some(Outcome::Draw)
    } else {
        None
    }
}

// ---------------------------------------------------------------------------
// The board
// ---------------------------------------------------------------------------

/// The full effect of playing an available move `mv` on board `pre`,
/// yielding `post`: the turn passes to the other player; the pits, seen
/// from the old mover, are the old position taken through sowing, capture
/// and the endgame rules; each score grows by what the move awards its
/// player; and the outcome is read off the new scores.
pub open spec fn play_transition(pre: Oware, post: Oware, mv: int) -> bool {
    let r0 = pre.rel_seq();
    let pp = pre.p as int;
    let m = pre.next;
    &&& post.p == pre.p
    &&& post.init_seeds == pre.init_seeds
    &&& post.next == m.other_spec()
    &&& post.rel_seq_for(m.index_spec()) == play_pits(r0, pp, mv)
    &&& post.score_spec(m) as int == pre.score_spec(m) + mover_gain(r0, pp, mv)
    &&& post.score_spec(m.other_spec()) as int == pre.score_spec(m.other_spec()) + opponent_gain(
        r0,
        pp,
        mv,
    )
    &&& post.outcome == outcome_of_scores(
        post.score_a as int,
        post.score_b as int,
        pp * pre.init_seeds,
    )
}

/// The absolute pit index of mover-relative index `i`, for a board with
/// `p` pits per player whose mover has player index `m`.
pub open spec fn abs_of(p: int, m: int, i: int) -> int {
    if i < p {
        m * p + i
    } else {
        (1 - m) * p + (i - p)
    }
}

/// An Oware position: seed counts per pit in absolute order, captured
/// seeds per player, and the player to move. `outcome` is set by the move
/// that ends the game and never changes afterwards.
pub struct Oware {
    /// Pits per player.
    pub p: usize,
    /// Seeds per pit at the start of the game.
    pub init_seeds: u8,
    /// Seed counts: index `i` is pit `i` of player A, `p + i` pit `i` of B.
    pub pits: Vec<u8>,
    /// Seeds captured by player A.
    pub score_a: u8,
    /// Seeds captured by player B.
    pub score_b: u8,
    /// The player to move.
    pub next: Player,
    /// The result, once the game is decided.
    pub outcome: Option<Outcome>,
}

impl Oware {
    /// The player index of the player to move.
    pub open spec fn mover(self) -> int {
        self.next.index_spec()
    }

    /// The pit contents as seen from the player to move: indices `0..p`
    /// are the mover's pits, `p..2p` the opponent's.
    pub open spec fn rel_seq(self) -> Seq<int> {
        self.rel_seq_for(self.mover())
    }

    /// The pit contents as seen from the player with index `m`.
    pub open spec fn rel_seq_for(self, m: int) -> Seq<int> {
        Seq::new((2 * self.p) as nat, |i: int| self.pits@[abs_of(self.p as int, m, i)] as int)
    }

    /// All seeds on the board and in the score piles together.
    pub open spec fn total(self) -> int {
        sum_range(self.rel_seq(), 0, 2 * self.p as int) + self.score_a + self.score_b
    }

    /// Every seed of the game, on the board or captured.
    pub open spec fn seed_count(self) -> int {
        2 * self.p * self.init_seeds
    }

    /// The shape every board of this type keeps: at least one pit per
    /// player, pit storage of the right length, and few enough seeds that
    /// every count fits one byte.
    pub open spec fn shape(self) -> bool {
        &&& 1 <= self.p
        &&& 1 <= self.init_seeds
        &&& 2 * self.p <= 255
        &&& self.pits@.len() == 2 * self.p
        &&& self.seed_count() <= 255
    }

    /// Well-formedness: the invariant every reachable board satisfies.
    /// Seeds are conserved — the board and the score piles always hold
    /// exactly the seeds the game started with.
    pub open spec fn wf(self) -> bool {
        &&& self.shape()
        &&& self.total() == self.seed_count()
    }

    /// Liveness: while no outcome is recorded, the player to move has at
    /// least one legal move. A fresh board has this, and every move
    /// preserves it.
    pub open spec fn progress(self) -> bool {
        self.outcome is None ==> exists|mv: int| self.available(mv)
    }

    /// Whether the opponent of the mover has any seed on the board.
    pub open spec fn opp_has_seeds(self) -> bool {
        exists|j: int| self.p <= j < 2 * self.p && self.rel_seq()[j] > 0
    }

    /// Move legality: the game is not over, the pit is one of the mover's,
    /// and it is non-empty; when the opponent is bare the move must also
    /// reach the opponent's side, so that the mover feeds them.
    pub open spec fn available(self, mv: int) -> bool {
        &&& self.outcome is None
        &&& avail_rel(self.rel_seq(), self.p as int, mv)
    }

    /// A fresh board: `init_seeds` in every pit, empty score piles, player
    /// A to move.
    pub fn new(p: usize, init_seeds: u8) -> (r: Oware)
        requires
            1 <= p,
            1 <= init_seeds,
            2 * p * init_seeds <= 255,
        ensures
            r.wf(),
            r.progress(),
            r.p == p,
            r.init_seeds == init_seeds,
            r.next == Player::A,
            r.outcome is None,
            r.score_a == 0,
            r.score_b == 0,
            forall|i: int| 0 <= i < 2 * p ==> r.pits@[i] == init_seeds,
            forall|i: int| 0 <= i < 2 * p ==> r.rel_seq()[i] == init_seeds,
    {
        proof {
            assert(2 * p <= 2 * p * init_seeds) by (nonlinear_arith)
                requires
                    1 <= init_seeds,
                    1 <= p,
            ;
        }
        let mut pits: Vec<u8> = Vec::new();
        while pits.len() < 2 * p
            invariant
                2 * p <= 255,
                pits.len() <= 2 * p,
                forall|i: int| 0 <= i < pits.len() ==> pits@[i] == init_seeds,
                p >= 1,
            decreases 2 * p - pits.len(),
        {
            pits.push(init_seeds);
        }
        let r = Oware {
            p,
            init_seeds,
            pits,
            score_a: 0,
            score_b: 0,
            next: Player::A,
            outcome: None,
        };
        proof {
            assert forall|i: int| 0 <= i < 2 * p implies r.rel_seq()[i] == init_seeds as int by {
                assert(0 <= abs_of(p as int, 0, i) < 2 * p);
            }
            lemma_sum_range_const(r.rel_seq(), init_seeds as int, 0, 2 * p as int);
            assert(r.total() == r.seed_count()) by (nonlinear_arith)
                requires
                    sum_range(r.rel_seq(), 0, 2 * p as int) == (init_seeds as int) * (2 * p as int),
                    r.score_a == 0 && r.score_b == 0,
                    r.p == p && r.init_seeds == init_seeds,
                    r.total() == sum_range(r.rel_seq(), 0, 2 * p as int) + r.score_a + r.score_b,
                    r.seed_count() == 2 * (p as int) * (init_seeds as int),
            ;
            assert(r.available(0)) by {
                assert(r.rel_seq()[p as int] == init_seeds as int);
                assert(r.rel_seq()[0] == init_seeds as int);
            }
        }
        r
    }

    /// The seeds captured so far by `player`.
    pub fn score(&self, player: Player) -> (r: u8)
        ensures
            r == self.score_spec(player),
    {
        match player {
            Player::A => self.score_a,
            Player::B => self.score_b,
        }
    }

    pub open spec fn score_spec(self, player: Player) -> u8 {
        match player {
            Player::A => self.score_a,
            Player::B => self.score_b,
        }
    }

    /// The seeds in pit `idx` of `player`, in absolute addressing.
    pub fn get_seeds(&self, player: Player, idx: usize) -> (r: u8)
        requires
            self.wf(),
            idx < self.p,
        ensures
            r as int == self.pits@[player.index_spec() * self.p + idx],
    {
        let base = match player {
            Player::A => 0,
            Player::B => self.p,
        };
        self.pits[base + idx]
    }

    /// The number of seeds each pit started the game with.
    pub fn init_seeds(&self) -> (r: u8)
        ensures
            r == self.init_seeds,
    {
        self.init_seeds
    }

    /// The number of pits each player owns.
    pub fn pits_per_side(&self) -> (r: usize)
        ensures
            r == self.p,
    {
        self.p
    }

    /// The player to move.
    pub fn next_player(&self) -> (r: Player)
        ensures
            r == self.next,
    {
        self.next
    }

    /// Whether the game has been decided.
    pub fn is_done(&self) -> (r: bool)
        ensures
            r == (self.outcome is Some),
    {
        self.outcome.is_some()
    }

    /// The outcome of the game, once it is decided; `None` while play goes
    /// on. A pure read: repeated calls agree until the next move.
    pub fn outcome(&self) -> (r: Option<Outcome>)
        ensures
            r == self.outcome,
    {
        self.outcome
    }

    /// Read the mover-relative pit `i`.
    fn rel_get(&self, i: usize) -> (r: u8)
        requires
            self.shape(),
            i < 2 * self.p,
        ensures
            r as int == self.rel_seq()[i as int],
    {
        let mover_base = match self.next {
            Player::A => 0,
            Player::B => self.p,
        };
        let other_base = match self.next {
            Player::A => self.p,
            Player::B => 0,
        };
        let idx = if i < self.p {
            mover_base + i
        } else {
            other_base + (i - self.p)
        };
        proof {
            lemma_abs_base(self.p as int, self.mover(), i as int, idx as int);
        }
        self.pits[idx]
    }

    /// Write the mover-relative pit `i`.
    fn rel_set(&mut self, i: usize, v: u8)
        requires
            old(self).shape(),
            i < 2 * old(self).p,
        ensures
            final(self).p == old(self).p,
            final(self).init_seeds == old(self).init_seeds,
            final(self).score_a == old(self).score_a,
            final(self).score_b == old(self).score_b,
            final(self).next == old(self).next,
            final(self).outcome == old(self).outcome,
            final(self).pits@.len() == old(self).pits@.len(),
            final(self).rel_seq() == old(self).rel_seq().update(i as int, v as int),
    {
        let mover_base = match self.next {
            Player::A => 0,
            Player::B => self.p,
        };
        let other_base = match self.next {
            Player::A => self.p,
            Player::B => 0,
        };
        let idx = if i < self.p {
            mover_base + i
        } else {
            other_base + (i - self.p)
        };
        self.pits.set(idx, v);
        proof {
            let p = self.p as int;
            let mm = self.mover();
            lemma_abs_base(p, mm, i as int, idx as int);
            assert forall|q: int| 0 <= q < 2 * p implies self.rel_seq()[q] == old(
                self,
            ).rel_seq().update(i as int, v as int)[q] by {
                if q != i as int {
                    lemma_abs_of_injective(p, mm, q, i as int);
                }
            }
            assert(self.rel_seq() =~= old(self).rel_seq().update(i as int, v as int));
        }
    }

    /// Whether `mv` is a legal move for the player to move. Illegal are:
    /// any index outside the mover's pits, an empty pit, a move on a
    /// decided board, and — when the opponent is bare — a move that fails
    /// to feed them.
    pub fn is_available_move(&self, mv: usize) -> (r: bool)
        requires
            self.wf(),
        ensures
            r == self.available(mv as int),
    {
        if self.outcome.is_some() {
            return false;
        }
        if mv >= self.p {
            return false;
        }
        let mut j = self.p;
        let mut opp_has = false;
        while j < 2 * self.p
            invariant
                self.wf(),
                self.p <= j <= 2 * self.p,
                opp_has == exists|q: int| self.p <= q < j && self.rel_seq()[q] > 0,
            decreases 2 * self.p - j,
        {
            if self.rel_get(j) > 0 {
                opp_has = true;
            }
            j = j + 1;
        }
        if opp_has {
            self.rel_get(mv) > 0
        } else {
            let seeds = self.rel_get(mv);
            proof {
                lemma_rel_entry_bounded(*self, mv as int);
            }
            mv + seeds as usize >= self.p
        }
    }

    /// The seeds shown in a bowl: a pit bowl holds its pit's seeds, and
    /// the two score bowls hold each player's captured seeds.
    pub fn seeds_in(&self, mv: &Bowl) -> (r: u8)
        requires
            self.wf(),
            mv.0 < 2 * self.p + 2,
        ensures
            mv.0 < 2 * self.p ==> r as int == self.pits@[mv.0 as int],
            mv.0 == 2 * self.p ==> r == self.score_a,
            mv.0 == 2 * self.p + 1 ==> r == self.score_b,
    {
        if mv.0 < 2 * self.p {
            self.pits[mv.0]
        } else if mv.0 == 2 * self.p {
            self.score_a
        } else {
            self.score_b
        }
    }

    /// Whether a bowl is one of the current mover's own pit bowls.
    pub fn is_player_bowl(&self, mv: &Bowl) -> (r: bool)
        requires
            self.wf(),
        ensures
            r == if self.next is A {
                mv.0 < self.p
            } else {
                self.p <= mv.0 < 2 * self.p
            },
    {
        match self.next {
            Player::A => mv.0 < self.p,
            Player::B => self.p <= mv.0 && mv.0 < 2 * self.p,
        }
    }

    /// Play the move `mv` for the player to move: sow the pit's seeds,
    /// apply the capture and endgame rules, record the outcome if the
    /// game is now decided, and give the turn to the other player. An
    /// unavailable move is silently ignored and the board is unchanged;
    /// callers are expected to check `is_available_move` first. Seeds are
    /// conserved in every case.
    pub fn play(&mut self, mv: usize)
        requires
            old(self).wf(),
        ensures
            final(self).wf(),
            final(self).p == old(self).p,
            final(self).init_seeds == old(self).init_seeds,
            final(self).total() == old(self).total(),
            !old(self).available(mv as int) ==> *final(self) == *old(self),
            old(self).available(mv as int) ==> play_transition(*old(self), *final(self), mv as int),
            old(self).available(mv as int) ==> final(self).progress(),
            old(self).progress() ==> final(self).progress(),
    {
        if !self.is_available_move(mv) {
            return ;
        }
        let ghost r0 = self.rel_seq();
        let ghost pp = self.p as int;
        let ghost n_s = 2 * pp;
        let ghost m = self.next;
        let ghost mi = m.index_spec();
        let last = self.sow_phase(mv);
        let ghost r1 = self.rel_seq();
        self.capture_phase(last);
        let ghost r3 = self.rel_seq();
        proof {
            assert(r1 == sown(r0, mv as int));
            assert(last as int == sow_last(r0, mv as int));
            assert(r3 == after_capture(r0, pp, mv as int));
        }
        self.starve_phase();
        let ghost r4 = self.rel_seq();
        proof {
            assert(r4 == after_starve(r0, pp, mv as int));
        }
        self.stalemate_phase();
        proof {
            assert(self.rel_seq() == play_pits(r0, pp, mv as int));
            assert(self.score_spec(m) as int == old(self).score_spec(m) + mover_gain(
                r0,
                pp,
                mv as int,
            ));
            assert(self.score_spec(m.other_spec()) as int == old(self).score_spec(m.other_spec())
                + opponent_gain(r0, pp, mv as int));
        }
        proof {
            let ghost init = old(self).init_seeds as int;
            assert(pp * init <= 127) by (nonlinear_arith)
                requires
                    2 * pp * init <= 255,
                    pp >= 1,
                    init >= 1,
            ;
        }
        let half = self.p * (self.init_seeds as usize);
        let sa = self.score_a;
        let sb = self.score_b;
        self.outcome = if (sa as usize) > half {
            Some(Outcome::WonBy(Player::A))
        } else if (sb as usize) > half {
            Some(Outcome::WonBy(Player::B))
        } else if (sa as usize) == half && (sb as usize) == half {
            Some(Outcome::Draw)
        } else {
            None
        };
        self.next = self.next.other();
        proof {
            lemma_rel_seq_flip(*self, mi);
            lemma_flip_sum(self.rel_seq_for(mi), pp);
            assert(self.rel_seq_for(mi) == play_pits(r0, pp, mv as int));
            assert(self.mover() == 1 - mi);
            assert(self.rel_seq() == self.rel_seq_for(1 - mi));
            assert(sum_range(self.rel_seq(), 0, n_s) == sum_range(self.rel_seq_for(mi), 0, n_s));
            assert(self.wf());
            // liveness: if the new scores decide nothing, the player now
            // to move has an answer
            let init = old(self).init_seeds as int;
            lemma_rel_nonneg(*old(self));
            assert(2 * (pp * init) == 2 * pp * init) by (nonlinear_arith);
            lemma_play_progress(
                r0,
                pp,
                mv as int,
                self.score_a as int,
                self.score_b as int,
                pp * init,
            );
            assert(self.rel_seq() == flip_rel(play_pits(r0, pp, mv as int), pp));
            if self.outcome is None {
                let i = choose|i: int|
                    avail_rel(flip_rel(play_pits(r0, pp, mv as int), pp), pp, i);
                assert(self.available(i));
            }
        }
    }

    /// Capture: starting from the pit that received the last seed and
    /// walking backwards, move every opponent pit holding two or three
    /// seeds into the mover's score, stopping at the first pit that does
    /// not qualify — unless the capture would take the opponent's last
    /// seed, in which case the move stands and nothing is captured.
    fn capture_phase(&mut self, last: usize)
        requires
            old(self).wf(),
            last < 2 * old(self).p,
        ensures
            final(self).wf(),
            final(self).p == old(self).p,
            final(self).init_seeds == old(self).init_seeds,
            final(self).next == old(self).next,
            final(self).outcome == old(self).outcome,
            ({
                let r = old(self).rel_seq();
                let pp = old(self).p as int;
                let r2 = capture_run(r, pp, last as int);
                let rn = if opp_empty(r2, pp) {
                    r
                } else {
                    r2
                };
                &&& final(self).rel_seq() == rn
                &&& final(self).score_spec(old(self).next) as int == old(self).score_spec(
                    old(self).next,
                ) + sum_range(r, pp, 2 * pp) - sum_range(rn, pp, 2 * pp)
                &&& final(self).score_spec(old(self).next.other_spec()) == old(self).score_spec(
                    old(self).next.other_spec(),
                )
            }),
    {
        let p = self.p;
        let n = 2 * p;
        let ghost pp = p as int;
        let ghost n_s = n as int;
        let ghost r = self.rel_seq();
        proof {
            lemma_rel_nonneg(*self);
        }
        // find the pit where the capture chain ends
        let mut e = last;
        let mut scanning = true;
        while scanning
            invariant
                *self == *old(self),
                old(self).wf(),
                self.p == p,
                n == 2 * p,
                n_s == n as int,
                pp == p as int,
                r == self.rel_seq(),
                last < n,
                e <= last,
                forall|q: int| e < q <= last ==> r[q] == 2 || r[q] == 3,
                e < last ==> e + 1 >= p,
                !scanning ==> (e < p || !(r[e as int] == 2 || r[e as int] == 3)),
            decreases e + if scanning {
                1int
            } else {
                0int
            },
        {
            if e < p {
                scanning = false;
            } else {
                let v = self.rel_get(e);
                if v == 2 || v == 3 {
                    e = e - 1;
                } else {
                    scanning = false;
                }
            }
        }
        let ghost r2 = capture_run(r, pp, last as int);
        let ghost rch = Seq::new(r.len(), |t: int| if e < t <= last { 0int } else { r[t] });
        proof {
            lemma_capture_chain(r, pp, last as int, e as int);
            assert(r2 =~= rch);
        }
        // would the capture strip the opponent bare?
        let mut q = p;
        let mut bare = true;
        while q < n
            invariant
                *self == *old(self),
                old(self).wf(),
                self.p == p,
                n == 2 * p,
                n_s == n as int,
                pp == p as int,
                r == self.rel_seq(),
                r2 == rch,
                rch == Seq::new(r.len(), |t: int| if e < t <= last { 0int } else { r[t] }),
                r.len() == n as int,
                last < n,
                e <= last,
                p <= q <= n,
                bare == (forall|j: int| pp <= j < q ==> r2[j] == 0),
            decreases n - q,
        {
            if q <= e || q > last {
                if self.rel_get(q) > 0 {
                    proof {
                        assert(r2[q as int] == r[q as int]);
                    }
                    bare = false;
                }
            }
            q = q + 1;
        }
        if bare {
            proof {
                assert(opp_empty(r2, pp));
            }
            return ;
        }
        proof {
            assert(!opp_empty(r2, pp));
        }
        // gather the chain into the mover's score
        proof {
            lemma_sum_range_nonneg(r, pp, n_s);
        }
        let mut gained: u8 = 0;
        let mut j = last;
        while j > e
            invariant
                self.shape(),
                self.p == p,
                n == 2 * p,
                n_s == n as int,
                pp == p as int,
                self.init_seeds == old(self).init_seeds,
                self.score_a == old(self).score_a,
                self.score_b == old(self).score_b,
                self.next == old(self).next,
                self.outcome == old(self).outcome,
                old(self).wf(),
                r == old(self).rel_seq(),
                r.len() == n as int,
                e <= j <= last,
                last < n,
                e < last ==> e + 1 >= p,
                forall|t: int| e < t <= last ==> r[t] == 2 || r[t] == 3,
                self.rel_seq() == Seq::new(
                    r.len(),
                    |t: int| if j < t <= last { 0int } else { r[t] },
                ),
                gained as int == sum_range(r, pp, n_s) - sum_range(self.rel_seq(), pp, n_s),
                gained as int <= sum_range(r, pp, n_s),
            decreases j,
        {
            let ghost cur = self.rel_seq();
            let v = self.rel_get(j);
            proof {
                lemma_rel_nonneg(*self);
                lemma_rel_nonneg(*old(self));
                lemma_sum_range_elem(cur, pp, n_s, j as int);
                lemma_sum_range_nonneg(cur, pp, n_s);
                lemma_sum_range_split(r, 0, pp, n_s);
                lemma_sum_range_nonneg(r, 0, pp);
                assert(sum_range(r, 0, n_s) <= 255);
            }
            self.rel_set(j, 0);
            gained = gained + v;
            proof {
                lemma_sum_range_update(cur, j as int, 0, pp, n_s);
                assert(self.rel_seq() =~= Seq::new(
                    r.len(),
                    |t: int| if j - 1 < t <= last { 0int } else { r[t] },
                ));
            }
            j = j - 1;
        }
        proof {
            assert(self.rel_seq() =~= r2);
        }
        proof {
            // the mover's score still has room: the gathered seeds come
            // off the board, whose seeds the score piles complement
            lemma_rel_nonneg(*old(self));
            lemma_sum_range_split(r, 0, pp, n_s);
            lemma_sum_range_nonneg(r, 0, pp);
            lemma_rel_nonneg(*self);
            lemma_sum_range_nonneg(self.rel_seq(), pp, n_s);
        }
        match self.next {
            Player::A => {
                self.score_a = self.score_a + gained;
            },
            Player::B => {
                self.score_b = self.score_b + gained;
            },
        }
        proof {
            lemma_sum_range_congruent(self.rel_seq(), r, 0, pp);
            lemma_sum_range_split(self.rel_seq(), 0, pp, n_s);
            lemma_sum_range_split(r, 0, pp, n_s);
        }
    }

    /// Starvation endgame: if the mover ends the move with no seeds and
    /// no opponent move could ever feed them, the game cannot continue —
    /// the opponent's remaining seeds leave the board for the opponent's
    /// score pile.
    fn starve_phase(&mut self)
        requires
            old(self).wf(),
        ensures
            final(self).wf(),
            final(self).p == old(self).p,
            final(self).init_seeds == old(self).init_seeds,
            final(self).next == old(self).next,
            final(self).outcome == old(self).outcome,
            ({
                let r = old(self).rel_seq();
                let pp = old(self).p as int;
                if starved(r, pp) {
                    &&& final(self).rel_seq() == clear_opp(r, pp)
                    &&& final(self).score_spec(old(self).next.other_spec()) as int == old(
                        self,
                    ).score_spec(old(self).next.other_spec()) + sum_range(r, pp, 2 * pp)
                    &&& final(self).score_spec(old(self).next) == old(self).score_spec(
                        old(self).next,
                    )
                } else {
                    *final(self) == *old(self)
                }
            }),
    {
        let p = self.p;
        let n = 2 * p;
        let ghost pp = p as int;
        let ghost n_s = n as int;
        let ghost r = self.rel_seq();
        proof {
            lemma_rel_nonneg(*self);
        }
        let mut i: usize = 0;
        let mut own_zero = true;
        while i < p
            invariant
                *self == *old(self),
                old(self).wf(),
                self.p == p,
                n == 2 * p,
                pp == p as int,
                r == self.rel_seq(),
                i <= p,
                own_zero == (forall|t: int| 0 <= t < i ==> r[t] == 0),
            decreases p - i,
        {
            if self.rel_get(i) > 0 {
                own_zero = false;
            }
            i = i + 1;
        }
        if !own_zero {
            return ;
        }
        let mut j = p;
        let mut can_feed = false;
        while j < n
            invariant
                *self == *old(self),
                old(self).wf(),
                self.p == p,
                n == 2 * p,
                pp == p as int,
                r == self.rel_seq(),
                p <= j <= n,
                can_feed == (exists|t: int| pp <= t < j && overflows(r, pp, t)),
            decreases n - j,
        {
            let v = self.rel_get(j);
            if (j - p) + (v as usize) >= p {
                proof {
                    assert(overflows(r, pp, j as int));
                }
                can_feed = true;
            }
            j = j + 1;
        }
        if can_feed {
            return ;
        }
        proof {
            assert(starved(r, pp));
        }
        // the game is over: the opponent keeps the seeds left on the board
        let mut gathered: u8 = 0;
        let mut k = p;
        while k < n
            invariant
                self.shape(),
                old(self).wf(),
                self.p == p,
                n == 2 * p,
                pp == p as int,
                n_s == n as int,
                self.init_seeds == old(self).init_seeds,
                self.score_a == old(self).score_a,
                self.score_b == old(self).score_b,
                self.next == old(self).next,
                self.outcome == old(self).outcome,
                r == old(self).rel_seq(),
                r.len() == n as int,
                p <= k <= n,
                self.rel_seq() == Seq::new(
                    r.len(),
                    |t: int| if pp <= t < k { 0int } else { r[t] },
                ),
                gathered as int == sum_range(r, pp, k as int),
            decreases n - k,
        {
            let v = self.rel_get(k);
            proof {
                lemma_rel_nonneg(*old(self));
                lemma_sum_range_split(r, 0, pp, n_s);
                lemma_sum_range_split(r, pp, k as int, n_s);
                lemma_sum_range_split(r, k as int, k as int + 1, n_s);
                lemma_sum_range_nonneg(r, 0, pp);
                lemma_sum_range_nonneg(r, k as int + 1, n_s);
                assert(r[k as int] == self.rel_seq()[k as int]);
                assert(gathered + v <= 255);
            }
            self.rel_set(k, 0);
            gathered = gathered + v;
            proof {
                lemma_sum_range_split(r, pp, k as int, k as int + 1);
                assert(self.rel_seq() =~= Seq::new(
                    r.len(),
                    |t: int| if pp <= t < k + 1 { 0int } else { r[t] },
                ));
            }
            k = k + 1;
        }
        proof {
            assert(self.rel_seq() =~= clear_opp(r, pp));
            lemma_rel_nonneg(*old(self));
            lemma_sum_range_split(r, 0, pp, n_s);
            lemma_sum_range_nonneg(r, 0, pp);
        }
        match self.next {
            Player::A => {
                self.score_b = self.score_b + gathered;
            },
            Player::B => {
                self.score_a = self.score_a + gathered;
            },
        }
        proof {
            lemma_sum_range_congruent(self.rel_seq(), r, 0, pp);
            lemma_sum_range_split(self.rel_seq(), 0, pp, n_s);
            lemma_sum_range_zero(self.rel_seq(), pp, n_s);
            lemma_sum_range_split(r, 0, pp, n_s);
        }
    }

    /// Stalemate endgame: two lone seeds placed half a board apart chase
    /// each other forever; the board is cleared and each player is
    /// awarded one of the two seeds.
    fn stalemate_phase(&mut self)
        requires
            old(self).wf(),
        ensures
            final(self).wf(),
            final(self).p == old(self).p,
            final(self).init_seeds == old(self).init_seeds,
            final(self).next == old(self).next,
            final(self).outcome == old(self).outcome,
            ({
                let r = old(self).rel_seq();
                let pp = old(self).p as int;
                if stalemate(r, pp) {
                    &&& final(self).rel_seq() == Seq::new(r.len(), |t: int| 0int)
                    &&& final(self).score_a == old(self).score_a + 1
                    &&& final(self).score_b == old(self).score_b + 1
                } else {
                    *final(self) == *old(self)
                }
            }),
    {
        let p = self.p;
        let n = 2 * p;
        let ghost pp = p as int;
        let ghost n_s = n as int;
        let ghost r = self.rel_seq();
        proof {
            lemma_rel_nonneg(*self);
        }
        let mut t: usize = 0;
        let mut pit_sum: usize = 0;
        let mut all_le1 = true;
        let mut have_one = false;
        let mut f: usize = 0;
        let mut l: usize = 0;
        while t < n
            invariant
                *self == *old(self),
                old(self).wf(),
                self.p == p,
                n == 2 * p,
                pp == p as int,
                n_s == n as int,
                r == self.rel_seq(),
                r.len() == n as int,
                t <= n,
                pit_sum == sum_range(r, 0, t as int),
                pit_sum <= 255,
                all_le1 == (forall|u: int| 0 <= u < t ==> r[u] <= 1),
                have_one ==> f <= l < t && r[f as int] == 1 && r[l as int] == 1,
                have_one ==> (forall|u: int| 0 <= u < f ==> r[u] != 1),
                have_one ==> (forall|u: int| l < u < t ==> r[u] != 1),
                !have_one ==> (forall|u: int| 0 <= u < t ==> r[u] != 1),
            decreases n - t,
        {
            let v = self.rel_get(t);
            proof {
                lemma_sum_range_split(r, 0, t as int, n_s);
                lemma_sum_range_split(r, t as int, t as int + 1, n_s);
                lemma_sum_range_nonneg(r, t as int + 1, n_s);
                lemma_sum_range_nonneg(r, 0, t as int);
                assert(pit_sum + v <= 255);
                lemma_sum_range_split(r, 0, t as int, t as int + 1);
            }
            pit_sum = pit_sum + (v as usize);
            if v > 1 {
                all_le1 = false;
            }
            if v == 1 {
                if !have_one {
                    have_one = true;
                    f = t;
                }
                l = t;
            }
            t = t + 1;
        }
        let stale_now = pit_sum == 2 && all_le1 && have_one && f < l && (l - f == p - 1 || l - f
            == p);
        proof {
            if stale_now {
                assert(stalemate(r, pp));
            } else {
                if stalemate(r, pp) {
                    let (f0, l0) = choose|f0: int, l0: int|
                        0 <= f0 < l0 < 2 * pp && r[f0] == 1 && r[l0] == 1 && (l0 - f0 == pp - 1
                            || l0 - f0 == pp);
                    assert(have_one);
                    lemma_two_ones(r, n_s, f0, l0);
                    assert(f as int == f0 && l as int == l0);
                    assert(false);
                }
            }
        }
        if stale_now {
            proof {
                lemma_two_ones(r, n_s, f as int, l as int);
            }
            self.rel_set(f, 0);
            self.rel_set(l, 0);
            proof {
                assert(self.rel_seq() =~= Seq::new(r.len(), |u: int| 0int));
                lemma_sum_range_zero(self.rel_seq(), 0, n_s);
            }
            self.score_a = self.score_a + 1;
            self.score_b = self.score_b + 1;
        }
    }

    /// Sowing: empty pit `mv` and drop its seeds one by one into the
    /// following pits, skipping `mv` itself, returning the pit that
    /// received the last seed.
    fn sow_phase(&mut self, mv: usize) -> (last: usize)
        requires
            old(self).wf(),
            old(self).available(mv as int),
        ensures
            final(self).wf(),
            final(self).p == old(self).p,
            final(self).init_seeds == old(self).init_seeds,
            final(self).score_a == old(self).score_a,
            final(self).score_b == old(self).score_b,
            final(self).next == old(self).next,
            final(self).outcome == old(self).outcome,
            final(self).rel_seq() == sown(old(self).rel_seq(), mv as int),
            last as int == sow_last(old(self).rel_seq(), mv as int),
            last < 2 * old(self).p,
    {
        let ghost r0 = self.rel_seq();
        let p = self.p;
        let n = 2 * p;
        let ghost n_s = n as int;
        let ghost mv_s = mv as int;
        let total = self.rel_get(mv);
        self.rel_set(mv, 0);
        let ghost base = r0.update(mv_s, 0int);
        proof {
            lemma_rel_nonneg(*old(self));
            lemma_sum_range_update(r0, mv_s, 0, 0, n_s);
        }
        let mut seeds = total;
        let mut idx = mv;
        while seeds > 0
            invariant
                self.shape(),
                self.p == p,
                n == 2 * p,
                n_s == n as int,
                mv_s == mv as int,
                mv < p,
                idx < n,
                self.init_seeds == old(self).init_seeds,
                self.score_a == old(self).score_a,
                self.score_b == old(self).score_b,
                self.next == old(self).next,
                self.outcome == old(self).outcome,
                seeds <= total,
                sum_range(r0, 0, n_s) <= 255,
                sow_pits(base, mv_s, mv_s, total as nat) == sow_pits(
                    self.rel_seq(),
                    mv_s,
                    idx as int,
                    seeds as nat,
                ),
                sow_end(n_s, mv_s, mv_s, total as nat) == sow_end(
                    n_s,
                    mv_s,
                    idx as int,
                    seeds as nat,
                ),
                sum_range(self.rel_seq(), 0, n_s) == sum_range(r0, 0, n_s) - seeds,
            decreases seeds,
        {
            let nx = step_pos(n, mv, idx);
            let ghost cur = self.rel_seq();
            let v = self.rel_get(nx);
            proof {
                lemma_rel_nonneg(*self);
                lemma_sum_range_elem(cur, 0, n_s, nx as int);
            }
            self.rel_set(nx, v + 1);
            proof {
                lemma_sum_range_update(cur, nx as int, v + 1, 0, n_s);
            }
            seeds = seeds - 1;
            idx = nx;
        }
        proof {
            assert(self.rel_seq() == sow_pits(base, mv_s, mv_s, total as nat));
            assert(self.rel_seq() == sown(r0, mv_s));
            assert(idx as int == sow_end(n_s, mv_s, mv_s, total as nat));
            assert(self.total() == self.seed_count());
        }
        idx
    }
}

/// One sowing step: the pit after `i`, wrapping around the `n` pits and
/// skipping the source pit `src`.
fn step_pos(n: usize, src: usize, i: usize) -> (r: usize)
    requires
        2 <= n,
        n <= 255,
        src < n,
        i < n,
    ensures
        r as int == next_pos(n as int, src as int, i as int),
        r < n,
        r != src,
{
    let mut j = i + 1;
    if j == n {
        j = 0;
    }
    if j == src {
        j = j + 1;
        if j == n {
            j = 0;
        }
    }
    proof {
        let ns = n as int;
        if i + 1 < n {
            vstd::arithmetic::div_mod::lemma_small_mod((i + 1) as nat, n as nat);
        } else {
            broadcast use vstd::arithmetic::div_mod::lemma_mod_self_0;

            assert((i + 1) % ns == 0);
        }
        let jj = (i as int + 1) % ns;
        if jj == src {
            if src + 1 < n {
                vstd::arithmetic::div_mod::lemma_small_mod((src + 1) as nat, n as nat);
            } else {
                broadcast use vstd::arithmetic::div_mod::lemma_mod_self_0;

                assert((src as int + 1) % ns == 0);
            }
        }
    }
    j
}

/// Sums agree across a constant index shift.
pub proof fn lemma_sum_range_shift(s: Seq<int>, t: Seq<int>, ls: int, lt: int, len: int)
    requires
        0 <= len,
        forall|d: int| 0 <= d < len ==> s[#[trigger] (ls + d)] == t[lt + d],
    ensures
        sum_range(s, ls, ls + len) == sum_range(t, lt, lt + len),
    decreases len,
{
    if len > 0 {
        assert(s[ls + 0] == t[lt + 0]);
        assert forall|d: int| 0 <= d < len - 1 implies s[#[trigger] (ls + 1 + d)] == t[lt + 1 + d] by {
            assert(s[ls + (d + 1)] == t[lt + (d + 1)]);
        }
        lemma_sum_range_shift(s, t, ls + 1, lt + 1, len - 1);
    }
}

/// The same position seen from the other player: the two halves of the
/// relative sequence swap places.
pub open spec fn flip_rel(s: Seq<int>, p: int) -> Seq<int> {
    Seq::new(s.len(), |i: int| if i < p { s[p + i] } else { s[i - p] })
}

/// A flipped sequence carries the same seeds.
pub proof fn lemma_flip_sum(s: Seq<int>, p: int)
    requires
        s.len() == 2 * p,
        1 <= p,
    ensures
        sum_range(flip_rel(s, p), 0, 2 * p) == sum_range(s, 0, 2 * p),
{
    let f = flip_rel(s, p);
    assert forall|d: int| 0 <= d < p implies f[#[trigger] (0 + d)] == s[p + d] by {}
    lemma_sum_range_shift(f, s, 0, p, p);
    assert forall|d: int| 0 <= d < p implies f[#[trigger] (p + d)] == s[0 + d] by {}
    lemma_sum_range_shift(f, s, p, 0, p);
    lemma_sum_range_split(f, 0, p, 2 * p);
    lemma_sum_range_split(s, 0, p, 2 * p);
}

/// Re-basing the relative view on the other player flips the two halves.
pub proof fn lemma_rel_seq_flip(b: Oware, m: int)
    requires
        1 <= b.p,
        b.pits@.len() == 2 * b.p,
        m == 0 || m == 1,
    ensures
        b.rel_seq_for(1 - m) == flip_rel(b.rel_seq_for(m), b.p as int),
{
    let p = b.p as int;
    let s = b.rel_seq_for(m);
    let f = flip_rel(s, p);
    assert forall|i: int| 0 <= i < 2 * p implies b.rel_seq_for(1 - m)[i] == f[i] by {
        if m == 0 {
            assert(abs_of(p, 1, i) == if i < p {
                p + i
            } else {
                i - p
            });
        } else {
            assert(abs_of(p, 0, i) == if i < p {
                i
            } else {
                i - p + p
            });
        }
    }
    assert(b.rel_seq_for(1 - m) =~= f);
}

/// A capture chain scan characterises the capture run: with `e` the pit
/// where the backward walk from `last` stops, the run zeroes exactly the
/// pits strictly between `e` and `last + 1`.
pub proof fn lemma_capture_chain(s: Seq<int>, p: int, last: int, e: int)
    requires
        1 <= p,
        0 <= e <= last,
        last < s.len(),
        forall|q: int| e < q <= last ==> s[q] == 2 || s[q] == 3,
        e < last ==> e + 1 >= p,
        e < p || !(s[e] == 2 || s[e] == 3),
    ensures
        capture_run(s, p, last) =~= Seq::new(
            s.len(),
            |q: int| if e < q <= last { 0int } else { s[q] },
        ),
    decreases last,
{
    if p <= last && (s[last] == 2 || s[last] == 3) {
        assert(e < last);
        let s1 = s.update(last, 0);
        assert forall|q: int| e < q <= last - 1 implies s1[q] == 2 || s1[q] == 3 by {
            assert(s[q] == 2 || s[q] == 3);
        }
        lemma_capture_chain(s1, p, last - 1, e);
    } else {
        assert(e == last) by {
            if e < last {
                assert(s[last] == 2 || s[last] == 3);
            }
        }
    }
}

/// With two seeds on the board, each pit holding at most one, the two pits
/// holding one seed are the only non-empty pits.
pub proof fn lemma_two_ones(s: Seq<int>, n: int, a: int, b: int)
    requires
        n == s.len(),
        sum_range(s, 0, n) == 2,
        forall|j: int| 0 <= j < n ==> 0 <= #[trigger] s[j] <= 1,
        0 <= a < b < n,
        s[a] == 1,
        s[b] == 1,
    ensures
        forall|q: int| 0 <= q < n && q != a && q != b ==> s[q] == 0,
{
    lemma_sum_range_split(s, 0, a, n);
    lemma_sum_range_split(s, a, a + 1, n);
    lemma_sum_range_split(s, a + 1, b, n);
    lemma_sum_range_split(s, b, b + 1, n);
    lemma_sum_range_nonneg(s, 0, a);
    lemma_sum_range_nonneg(s, a + 1, b);
    lemma_sum_range_nonneg(s, b + 1, n);
    assert(sum_range(s, 0, a) == 0 && sum_range(s, a + 1, b) == 0 && sum_range(s, b + 1, n) == 0);
    assert forall|q: int| 0 <= q < n && q != a && q != b implies s[q] == 0 by {
        if q < a {
            lemma_sum_range_elem(s, 0, a, q);
        } else if q < b {
            lemma_sum_range_elem(s, a + 1, b, q);
        } else {
            lemma_sum_range_elem(s, b + 1, n, q);
        }
    }
}

/// How many of `k` sown seeds land in pit `q`, sowing from the successor
/// of `i` and skipping `src`.
pub open spec fn sow_hits(n: int, src: int, i: int, k: nat, q: int) -> int
    decreases k,
{
    if k == 0 {
        0
    } else {
        let nx = next_pos(n, src, i);
        (if nx == q {
            1int
        } else {
            0int
        }) + sow_hits(n, src, nx, (k - 1) as nat, q)
    }
}

/// Sowing raises each pit by exactly the number of seeds that land in it
/// — and never touches the source pit.
pub proof fn lemma_sow_pits_counts(s: Seq<int>, src: int, i: int, k: nat, q: int)
    requires
        2 <= s.len(),
        0 <= src < s.len(),
        0 <= i < s.len(),
        0 <= q < s.len(),
    ensures
        sow_pits(s, src, i, k)[q] == s[q] + sow_hits(s.len() as int, src, i, k, q),
        sow_hits(s.len() as int, src, i, k, src) == 0,
    decreases k,
{
    if k > 0 {
        let n = s.len() as int;
        let nx = next_pos(n, src, i);
        lemma_next_pos_bounds(n, src, i);
        lemma_sow_pits_counts(s.update(nx, s[nx] + 1), src, nx, (k - 1) as nat, q);
    }
}

/// One more seed lands where the walk stands after one more step.
pub proof fn lemma_sow_hits_snoc(n: int, src: int, i: int, k: nat, q: int)
    requires
        2 <= n,
        0 <= src < n,
        0 <= i < n,
    ensures
        sow_hits(n, src, i, (k + 1) as nat, q) == sow_hits(n, src, i, k, q) + (if sow_end(
            n,
            src,
            i,
            (k + 1) as nat,
        ) == q {
            1int
        } else {
            0int
        }),
    decreases k,
{
    let nx = next_pos(n, src, i);
    lemma_next_pos_bounds(n, src, i);
    if k == 0 {
        assert(sow_end(n, src, i, 1) == sow_end(n, src, nx, 0));
        assert(sow_hits(n, src, i, 1, q) == (if nx == q {
            1int
        } else {
            0int
        }) + sow_hits(n, src, nx, 0, q));
        assert(sow_hits(n, src, nx, 0, q) == 0);
    } else {
        lemma_sow_hits_snoc(n, src, nx, (k - 1) as nat, q);
        assert(sow_end(n, src, i, (k + 1) as nat) == sow_end(n, src, nx, k));
        assert(sow_hits(n, src, i, (k + 1) as nat, q) == (if nx == q {
            1int
        } else {
            0int
        }) + sow_hits(n, src, nx, k, q));
        assert(sow_hits(n, src, i, k, q) == (if nx == q {
            1int
        } else {
            0int
        }) + sow_hits(n, src, nx, (k - 1) as nat, q));
    }
}

/// Landing counts commute with re-addressing: the seeds that the walk on
/// the absolute ring of bowls drops into the mover's bowl address of a
/// pit are exactly the seeds the mover-relative walk drops into that pit.
pub proof fn lemma_sow_hits_rotate(p: int, m: int, src: int, i: int, k: nat, q: int)
    requires
        1 <= p,
        m == 0 || m == 1,
        0 <= src < 2 * p,
        0 <= i < 2 * p,
        0 <= q < 2 * p,
    ensures
        sow_hits(2 * p, abs_of(p, m, src), abs_of(p, m, i), k, abs_of(p, m, q)) == sow_hits(
            2 * p,
            src,
            i,
            k,
            q,
        ),
    decreases k,
{
    if k > 0 {
        let n = 2 * p;
        let nx = next_pos(n, src, i);
        lemma_next_pos_bounds(n, src, i);
        lemma_next_pos_rotate(p, m, src, i);
        lemma_abs_of_injective_iff(p, m, nx, q);
        lemma_sow_hits_rotate(p, m, src, nx, (k - 1) as nat, q);
    }
}

/// Two pits share an absolute address only if they are the same pit.
proof fn lemma_abs_of_injective_iff(p: int, m: int, i: int, j: int)
    requires
        1 <= p,
        m == 0 || m == 1,
        0 <= i < 2 * p,
        0 <= j < 2 * p,
    ensures
        (abs_of(p, m, i) == abs_of(p, m, j)) == (i == j),
{
    if i != j {
        lemma_abs_of_injective(p, m, i, j);
    }
}

/// The sequencer replays the committed sowing pit for pit: among a full
/// cascade of `seeds` relocations scheduled from the mover's bowl, the
/// number that fly to any bowl equals the number of seeds the rule
/// engine's sowing puts into the pit at that bowl's address.
pub proof fn lemma_schedule_matches_sown_pits(r0: Seq<int>, p: int, m: int, mv: int, q: int)
    requires
        1 <= p,
        m == 0 || m == 1,
        r0.len() == 2 * p,
        0 <= mv < p,
        0 <= q < 2 * p,
        r0[mv] >= 0,
    ensures
        sow_hits(2 * p, m * p + mv, m * p + mv, r0[mv] as nat, abs_of(p, m, q)) == sown(r0, mv)[q]
            - r0.update(mv, 0)[q],
{
    assert(m * p + mv == abs_of(p, m, mv));
    lemma_sow_hits_rotate(p, m, mv, mv, r0[mv] as nat, q);
    lemma_sow_pits_counts(r0.update(mv, 0), mv, mv, r0[mv] as nat, q);
}

/// Stepping around the absolute ring of bowls from the mover's bowl is
/// the same walk as stepping around the mover-relative ring of pits:
/// re-addressing by `abs_of` commutes with one sowing step.
pub proof fn lemma_next_pos_rotate(p: int, m: int, src: int, i: int)
    requires
        1 <= p,
        m == 0 || m == 1,
        0 <= src < 2 * p,
        0 <= i < 2 * p,
    ensures
        next_pos(2 * p, abs_of(p, m, src), abs_of(p, m, i)) == abs_of(
            p,
            m,
            next_pos(2 * p, src, i),
        ),
{
    let n = 2 * p;
    lemma_mod_step(n, i);
    lemma_mod_step(n, abs_of(p, m, i));
    let j = (i + 1) % n;
    lemma_mod_step(n, j);
    lemma_mod_step(n, abs_of(p, m, j));
    lemma_next_pos_bounds(n, src, i);
}

/// For an index on the ring, taking one step is a plain increment that
/// wraps at the end.
proof fn lemma_mod_step(n: int, x: int)
    requires
        1 <= n,
        0 <= x < n,
    ensures
        (x + 1) % n == if x + 1 < n {
            x + 1
        } else {
            0
        },
{
    if x + 1 < n {
        vstd::arithmetic::div_mod::lemma_small_mod((x + 1) as nat, n as nat);
    } else {
        broadcast use vstd::arithmetic::div_mod::lemma_mod_self_0;

    }
}

/// The whole sowing walk commutes with re-addressing: after any number
/// of seeds, the absolute bowl reached from the mover's bowl is the
/// absolute address of the relative pit the engine's sowing reaches.
pub proof fn lemma_sow_end_rotate(p: int, m: int, src: int, i: int, k: nat)
    requires
        1 <= p,
        m == 0 || m == 1,
        0 <= src < 2 * p,
        0 <= i < 2 * p,
    ensures
        sow_end(2 * p, abs_of(p, m, src), abs_of(p, m, i), k) == abs_of(
            p,
            m,
            sow_end(2 * p, src, i, k),
        ),
    decreases k,
{
    if k > 0 {
        let n = 2 * p;
        lemma_next_pos_bounds(n, src, i);
        lemma_next_pos_rotate(p, m, src, i);
        lemma_sow_end_rotate(p, m, src, next_pos(n, src, i), (k - 1) as nat);
    }
}

/// The animation replays the committed move exactly: the bowl that the
/// `k`-th seed of a sowing cascade flies to, walking the ring of bowls
/// from the mover's bowl `m * p + mv`, is precisely the absolute address
/// of the pit that the rule engine's sowing gives the `k`-th seed of the
/// move `mv`.
pub proof fn lemma_flight_path_matches_engine(p: int, m: int, mv: int, k: nat)
    requires
        1 <= p,
        m == 0 || m == 1,
        0 <= mv < p,
    ensures
        sow_end(2 * p, m * p + mv, m * p + mv, k) == abs_of(p, m, sow_end(2 * p, mv, mv, k)),
{
    assert(m * p + mv == abs_of(p, m, mv));
    lemma_sow_end_rotate(p, m, mv, mv, k);
}

/// Liveness of the rules: a legal move never leaves the opponent without
/// an answer unless the scores decide the game on the spot. If the scores
/// after the move decide nothing, the player now to move — who sees the
/// board flipped — has at least one legal move.
pub proof fn lemma_play_progress(r0: Seq<int>, p: int, mv: int, sa: int, sb: int, half: int)
    requires
        r0.len() == 2 * p,
        1 <= p,
        forall|q: int| 0 <= q < 2 * p ==> #[trigger] r0[q] >= 0,
        avail_rel(r0, p, mv),
        sum_range(play_pits(r0, p, mv), 0, 2 * p) + sa + sb == 2 * half,
    ensures
        outcome_of_scores(sa, sb, half) is None ==> exists|i: int|
            avail_rel(flip_rel(play_pits(r0, p, mv), p), p, i),
{
    let n = 2 * p;
    let seeds = r0[mv] as nat;
    let base = r0.update(mv, 0);
    let r1 = sown(r0, mv);
    let last = sow_last(r0, mv);
    let r2 = capture_run(r1, p, last);
    let r3 = after_capture(r0, p, mv);
    let r4 = after_starve(r0, p, mv);
    let r5 = play_pits(r0, p, mv);
    let f = flip_rel(r5, p);
    if outcome_of_scores(sa, sb, half) is None {
        lemma_sow_len(base, mv, mv, seeds);
        lemma_sow_end_bounds(n, mv, mv, seeds);
        lemma_capture_len(r1, p, last);
        assert(seeds >= 1) by {
            if exists|j: int| p <= j < 2 * p && r0[j] > 0 {
            } else {
                assert(mv + r0[mv] >= p);
            }
        }
        // non-negativity flows through every phase
        assert(forall|q: int| 0 <= q < n ==> #[trigger] base[q] >= 0);
        assert forall|q: int| 0 <= q < n implies #[trigger] r1[q] >= 0 by {
            lemma_sow_mono(base, mv, mv, seeds, q);
        }
        assert forall|q: int| 0 <= q < n implies #[trigger] r3[q] >= 0 by {
            lemma_capture_decreases(r1, p, last, q);
        }
        assert(forall|q: int| 0 <= q < n ==> #[trigger] r4[q] >= 0);
        assert(forall|q: int| 0 <= q < n ==> #[trigger] r5[q] >= 0);
        // some seed is still on the board, else the scores decide the game
        assert(sum_range(r5, 0, n) > 0) by {
            lemma_sum_range_nonneg(r5, 0, n);
            if sum_range(r5, 0, n) == 0 {
                assert(sa + sb == 2 * half);
                assert(outcome_of_scores(sa, sb, half) is Some);
            }
        }
        assert(!stalemate(r4, p)) by {
            if stalemate(r4, p) {
                lemma_sum_range_zero(r5, 0, n);
            }
        }
        assert(r5 == r4);
        assert(!starved(r3, p)) by {
            if starved(r3, p) {
                assert(forall|q: int| 0 <= q < n ==> #[trigger] r4[q] == 0);
                lemma_sum_range_zero(r4, 0, n);
            }
        }
        assert(r4 == r3);
        if own_empty(r3, p) {
            // the mover is bare, but the game went on: somebody can feed them
            assert(exists|j: int| p <= j < 2 * p && overflows(r3, p, j));
            let j = choose|j: int| p <= j < 2 * p && overflows(r3, p, j);
            let i = j - p;
            assert(f[i] == r3[j]);
            assert forall|t: int| p <= t < 2 * p implies !(#[trigger] f[t] > 0) by {
                assert(f[t] == r3[t - p]);
            }
            assert(avail_rel(f, p, i));
        } else {
            // the mover keeps a seed, so any non-empty opponent pit answers
            let w = choose|w: int| 0 <= w < p && r3[w] > 0;
            assert(f[p + w] == r3[w]);
            assert(exists|t: int| p <= t < 2 * p && f[t] > 0) by {
                assert(f[p + w] > 0);
            }
            if opp_empty(r2, p) {
                // capture forfeited: the board after is the sown board
                assert(r3 == r1);
                if last >= p {
                    lemma_sow_end_positive(base, mv, mv, seeds, seeds);
                    assert(r1[last] >= 1);
                    let i = last - p;
                    assert(f[i] == r3[last]);
                    assert(avail_rel(f, p, i));
                } else {
                    // the last seed fell on the mover's side, so no capture
                    // ran; a bare opponent would have forced a feeding move
                    assert(r2 == r1);
                    assert forall|j: int| p <= j < 2 * p implies !(#[trigger] r0[j] > 0) by {
                        lemma_sow_mono(base, mv, mv, seeds, j);
                        assert(r1[j] == 0);
                        assert(base[j] == r0[j]);
                    }
                    assert(mv + r0[mv] >= p);
                    lemma_sow_end_no_wrap(n, mv, (p - mv) as nat);
                    lemma_sow_end_positive(base, mv, mv, seeds, (p - mv) as nat);
                    assert(r1[p] >= 1);
                    assert(false);
                }
            } else {
                assert(r3 == r2);
                let j = choose|j: int| p <= j < 2 * p && r2[j] != 0;
                let i = j - p;
                assert(f[i] == r3[j]);
                assert(avail_rel(f, p, i));
            }
        }
    }
}

/// The exec index arithmetic agrees with `abs_of`: relative index `i`
/// lands at `idx` when `idx` was computed as the mover-dependent base plus
/// the column.
pub proof fn lemma_abs_base(p: int, m: int, i: int, idx: int)
    requires
        1 <= p,
        m == 0 || m == 1,
        0 <= i < 2 * p,
        idx == if i < p {
            (if m == 0 {
                0int
            } else {
                p
            }) + i
        } else {
            (if m == 0 {
                p
            } else {
                0int
            }) + (i - p)
        },
    ensures
        idx == abs_of(p, m, i),
{
    if m == 0 {
        assert(abs_of(p, 0, i) == idx);
    } else {
        assert(abs_of(p, 1, i) == idx);
    }
}

/// Distinct mover-relative indices address distinct absolute pits.
pub proof fn lemma_abs_of_injective(p: int, m: int, i: int, j: int)
    requires
        1 <= p,
        m == 0 || m == 1,
        0 <= i < 2 * p,
        0 <= j < 2 * p,
        i != j,
    ensures
        abs_of(p, m, i) != abs_of(p, m, j),
        0 <= abs_of(p, m, i) < 2 * p,
{
}

/// A mover-relative index addresses a pit inside the board.
pub proof fn lemma_abs_of_bounds(p: int, m: int, i: int)
    requires
        1 <= p,
        m == 0 || m == 1,
        0 <= i < 2 * p,
    ensures
        0 <= abs_of(p, m, i) < 2 * p,
{
}

/// Every entry of the relative view is a pit content, hence non-negative.
pub proof fn lemma_rel_nonneg(b: Oware)
    requires
        b.shape(),
    ensures
        forall|q: int| 0 <= q < 2 * b.p ==> #[trigger] b.rel_seq()[q] >= 0,
        forall|q: int| 0 <= q < 2 * b.p ==> #[trigger] b.rel_seq_for(0)[q] >= 0,
        forall|q: int| 0 <= q < 2 * b.p ==> #[trigger] b.rel_seq_for(1)[q] >= 0,
{
    let p = b.p as int;
    assert forall|q: int| 0 <= q < 2 * p implies #[trigger] b.rel_seq()[q] >= 0 by {
        lemma_abs_of_bounds(p, b.mover(), q);
    }
    assert forall|q: int| 0 <= q < 2 * p implies #[trigger] b.rel_seq_for(0)[q] >= 0 by {
        lemma_abs_of_bounds(p, 0, q);
    }
    assert forall|q: int| 0 <= q < 2 * p implies #[trigger] b.rel_seq_for(1)[q] >= 0 by {
        lemma_abs_of_bounds(p, 1, q);
    }
}

/// No move is available outside the mover's pits `0..p` — in particular
/// none on the opponent's pits or the score piles — and none from an
/// empty pit, and none once the game is decided.
pub proof fn lemma_available_bounds(b: Oware, mv: int)
    requires
        b.wf(),
    ensures
        !(0 <= mv < b.p) ==> !b.available(mv),
        0 <= mv < b.p && b.rel_seq()[mv] == 0 ==> !b.available(mv),
        b.outcome is Some ==> !b.available(mv),
{
}

/// The game is done exactly when the player to move has no legal move:
/// an outcome is recorded if and only if every move is unavailable.
pub proof fn lemma_done_iff_no_moves(b: Oware)
    requires
        b.wf(),
        b.progress(),
    ensures
        (b.outcome is Some) <==> (forall|mv: int| !b.available(mv)),
{
    if b.outcome is None {
        assert(exists|mv: int| b.available(mv));
    }
}

/// In a well-formed board every pit holds at most the total seed count.
pub proof fn lemma_rel_entry_bounded(b: Oware, i: int)
    requires
        b.wf(),
        0 <= i < 2 * b.p,
    ensures
        0 <= b.rel_seq()[i] <= b.seed_count(),
{
    lemma_sum_range_elem(b.rel_seq(), 0, 2 * b.p as int, i);
}

} // verus!
