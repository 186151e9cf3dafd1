//! The sowing sequencer and the session state machine: relocation
//! schedules, cascade delays, the global busy flag, and the new-game
//! reset.

use oware::{bot_cooldown, delay_millis, sow_targets, Ai, Oware, OwareCfg, Player, Session,
    BOT_COOLDOWN_MS};

fn ball_count(s: &Session, bowl: usize) -> usize {
    s.balls.iter().filter(|b| b.at == bowl).count()
}

fn flights(s: &Session) -> Vec<(usize, usize, usize)> {
    // (ball bowl, destination, cascade position) of every seed in flight
    s.balls
        .iter()
        .filter_map(|b| b.flight.as_ref().map(|mb| (b.at, mb.0 .0, mb.1)))
        .collect()
}

fn land_all(s: &mut Session) {
    let mut guard = 0;
    while s.moving() && guard < 1000 {
        let i = s.balls.iter().position(|b| b.flight.is_some()).unwrap();
        s.complete_flight(i);
        guard += 1;
    }
    assert!(!s.moving());
}

#[test]
fn targets_schedule_one_relocation_per_seed() {
    let t = sow_targets(0, 4, 12);
    assert_eq!(t.len(), 4);
    for (k, mb) in t.iter().enumerate() {
        assert_eq!(mb.1, k, "cascade positions count up");
        assert_eq!(mb.0 .0, k + 1, "one bowl per seed");
    }
}

#[test]
fn targets_skip_the_source_on_a_lap() {
    let t = sow_targets(0, 13, 12);
    assert_eq!(t.len(), 13);
    // the first eleven seeds fill bowls 1..=11; the lap then passes over
    // the source bowl 0
    assert_eq!(t[10].0 .0, 11);
    assert_eq!(t[11].0 .0, 1);
    assert_eq!(t[12].0 .0, 2);
}

#[test]
fn delays_grow_strictly_along_the_cascade() {
    assert_eq!(delay_millis(0), 1);
    assert_eq!(delay_millis(1), 244);
    assert_eq!(delay_millis(3), 730);
    let mut last = 0;
    for k in 0..10 {
        let d = delay_millis(k);
        assert!(d > last);
        last = d;
    }
}

#[test]
fn new_session_rests_every_seed_in_its_pit() {
    let cfg = OwareCfg::default();
    let s = Session::new(cfg);
    assert!(!s.moving());
    assert_eq!(s.pending, None);
    assert_eq!(s.balls.len(), 48);
    for bowl in 0..12 {
        assert_eq!(ball_count(&s, bowl), 4);
    }
    assert!(s.balls.iter().all(|b| b.flight.is_none()));
    assert_eq!(s.board.next_player(), Player::A);
}

#[test]
fn accepted_move_schedules_a_staggered_cascade() {
    let cfg = OwareCfg::default(); // human plays first, so side A clicks
    let mut s = Session::new(cfg);
    s.play_tick(Some(0));
    assert_eq!(s.pending, Some(0), "the clicked legal bowl is marked");
    // a second acceptance is refused while one is pending
    s.play_tick(Some(1));
    assert_eq!(s.pending, Some(0));
    s.sow();
    assert_eq!(s.pending, None);
    // the board committed the move at once
    assert_eq!(s.board.get_seeds(Player::A, 0), 0);
    for i in 1..5 {
        assert_eq!(s.board.get_seeds(Player::A, i), 5);
    }
    // exactly one relocation per seed of the sown bowl, destinations one
    // bowl per seed, cascade positions strictly increasing from zero
    let mut fl = flights(&s);
    assert_eq!(fl.len(), 4);
    fl.sort_by_key(|f| f.2);
    for (k, (at, dest, pos)) in fl.iter().enumerate() {
        assert_eq!(*at, 0);
        assert_eq!(*dest, k + 1);
        assert_eq!(*pos, k);
    }
    // while seeds fly, the busy flag suppresses any new acceptance
    assert!(s.moving());
    s.play_tick(Some(1));
    assert_eq!(s.pending, None);
    land_all(&mut s);
    for bowl in 1..5 {
        assert_eq!(ball_count(&s, bowl), 5);
    }
    assert_eq!(ball_count(&s, 0), 0);
}

#[test]
fn settling_migrates_captured_seeds_to_the_score_bowl() {
    // after a capture the board shows the pit empty while its seeds are
    // still displayed: once nothing animates, those seeds fly to the
    // capturing player's score bowl in a staggered cascade
    let cfg = OwareCfg::default();
    let mut s = Session::new(cfg);
    s.board = Oware {
        p: 6,
        init_seeds: 1,
        pits: vec![1, 1, 1, 1, 1, 1, 0, 1, 1, 1, 0, 0],
        score_a: 2,
        score_b: 1,
        next: Player::B,
        outcome: None,
    };
    s.balls.clear();
    s.balls.push(oware::Ball { at: 7, flight: None });
    s.balls.push(oware::Ball { at: 6, flight: None });
    s.balls.push(oware::Ball { at: 6, flight: None });
    s.balls.push(oware::Ball { at: 0, flight: None });
    s.update_scores();
    // bowl 6 belongs to the new mover B and the board shows it empty, so
    // its two displayed seeds settle towards A's score bowl (index 12)
    let fl = flights(&s);
    assert_eq!(fl.len(), 2);
    assert!(fl.contains(&(6, 12, 0)));
    assert!(fl.contains(&(6, 12, 1)));
    // the seeds at bowls 7 (non-empty) and 0 (not the mover's) stay put
    assert!(s.balls[0].flight.is_none());
    assert!(s.balls[3].flight.is_none());
}

#[test]
fn new_game_reset_clears_everything() {
    let cfg = OwareCfg::default();
    let mut s = Session::new(cfg);
    // play into the game and leave seeds mid-flight
    s.play_tick(Some(2));
    s.sow();
    assert!(s.moving());
    // request a new game with a different seed count
    s.cfg.new_game = true;
    s.cfg.init_seeds = 3;
    s.cfg.outcome = Some(oware::Outcome::Draw);
    s.spawn_board();
    assert!(!s.cfg.new_game);
    assert_eq!(s.cfg.outcome, None);
    assert!(!s.moving(), "no animation survives a reset");
    assert_eq!(s.pending, None);
    assert_eq!(s.balls.len(), 36);
    for bowl in 0..12 {
        assert_eq!(ball_count(&s, bowl), 3);
        if bowl < 6 {
            assert_eq!(s.board.get_seeds(Player::A, bowl), 3);
        } else {
            assert_eq!(s.board.get_seeds(Player::B, bowl - 6), 3);
        }
    }
    assert_eq!(s.board.score(Player::A), 0);
    assert_eq!(s.board.score(Player::B), 0);
    assert_eq!(s.board.next_player(), Player::A);
    assert!(!s.board.is_done());
}

#[test]
fn reset_without_request_changes_nothing() {
    let cfg = OwareCfg::default();
    let mut s = Session::new(cfg);
    s.play_tick(Some(2));
    let pending = s.pending;
    s.spawn_board();
    assert_eq!(s.pending, pending);
    assert_eq!(s.balls.len(), 48);
}

#[test]
fn random_bot_drives_its_side() {
    let mut cfg = OwareCfg::default();
    cfg.human_is_first = false; // side A is the bot
    cfg.ai = Ai::Random;
    let mut s = Session::new(cfg);
    s.play_tick(None);
    match s.pending {
        Some(b) => {
            assert!(b < 6, "the bot moves on its own side");
            assert!(s.board.is_available_move(b));
        }
        None => panic!("the random bot finds a move on a fresh board"),
    }
    s.sow();
    assert_eq!(s.pending, None);
    assert!(s.moving());
}

#[test]
fn mcts_bot_proposes_a_legal_move() {
    let mut cfg = OwareCfg::default();
    cfg.human_is_first = false;
    cfg.ai = Ai::Mcts(27, 1);
    let mut s = Session::new(cfg);
    s.play_tick(None);
    let b = s.pending.expect("the tree search returns a move");
    assert!(b < 6);
}

#[test]
fn rollout_bot_proposes_a_legal_move() {
    let mut cfg = OwareCfg::default();
    cfg.human_is_first = false;
    cfg.ai = Ai::Rollout(27);
    let mut s = Session::new(cfg);
    s.play_tick(None);
    let b = s.pending.expect("the rollout bot returns a move");
    assert!(b < 6);
}

#[test]
fn full_game_against_the_random_bot() {
    let mut cfg = OwareCfg::default();
    cfg.ai = Ai::Random;
    let mut s = Session::new(cfg);
    let mut guard = 0;
    while !s.board.is_done() && guard < 4000 {
        // the human side plays its first available pit
        let click = if s.board.next_player() == Player::A {
            (0..6).find(|&mv| s.board.is_available_move(mv))
        } else {
            None
        };
        s.play_tick(click);
        s.sow();
        land_all(&mut s);
        s.update_scores();
        land_all(&mut s);
        // seeds are conserved at every step
        let total: u32 = (0..6)
            .map(|i| {
                s.board.get_seeds(Player::A, i) as u32 + s.board.get_seeds(Player::B, i) as u32
            })
            .sum::<u32>()
            + s.board.score(Player::A) as u32
            + s.board.score(Player::B) as u32;
        assert_eq!(total, 48);
        guard += 1;
    }
    if s.board.is_done() {
        assert!(s.board.outcome().is_some());
    }
}

#[test]
fn bot_cooldown_gates_and_resets() {
    let (t1, fire1) = bot_cooldown(0, 1000);
    assert!(!fire1);
    assert_eq!(t1, 1000);
    let (t2, fire2) = bot_cooldown(t1, 729);
    assert!(fire2, "1000 + 729 reaches the cooldown");
    assert_eq!(t2, 0);
    let (t3, fire3) = bot_cooldown(0, BOT_COOLDOWN_MS);
    assert!(fire3);
    assert_eq!(t3, 0);
    let (t4, fire4) = bot_cooldown(0, BOT_COOLDOWN_MS - 1);
    assert!(!fire4);
    assert_eq!(t4, BOT_COOLDOWN_MS - 1);
}

#[test]
fn offered_moves_are_accepted_exactly_when_legal_and_idle() {
    let cfg = OwareCfg::default();
    let mut s = Session::new(cfg);
    s.accept(9);
    assert_eq!(s.pending, None, "an illegal move is refused");
    s.accept(2);
    assert_eq!(s.pending, Some(2), "a legal move of the mover is marked");
    s.accept(3);
    assert_eq!(s.pending, Some(2), "nothing is accepted while one is pending");
    s.sow();
    s.accept(0);
    assert_eq!(s.pending, None, "nothing is accepted while seeds fly");
    land_all(&mut s);
    // B to move now: the accepted bowl is on B's side
    s.accept(0);
    assert_eq!(s.pending, Some(6));
}

#[test]
fn shown_seed_counts_follow_the_balls() {
    let cfg = OwareCfg::default();
    let mut s = Session::new(cfg);
    assert_eq!(s.shown_seeds(0), 4);
    assert_eq!(s.shown_seeds(11), 4);
    assert_eq!(s.shown_seeds(12), 0, "score bowls start empty");
    s.play_tick(Some(0));
    s.sow();
    land_all(&mut s);
    assert_eq!(s.shown_seeds(0), 0);
    assert_eq!(s.shown_seeds(1), 5);
}

#[test]
fn concluding_records_the_outcome_in_the_configuration() {
    let cfg = OwareCfg::default();
    let mut s = Session::new(cfg);
    assert_eq!(s.cfg.outcome, None);
    s.conclude_game();
    assert_eq!(s.cfg.outcome, None, "an unfinished game records nothing");
    s.board = Oware {
        p: 6,
        init_seeds: 1,
        pits: vec![0; 12],
        score_a: 7,
        score_b: 5,
        next: Player::B,
        outcome: Some(oware::Outcome::WonBy(Player::A)),
    };
    s.conclude_game();
    assert_eq!(s.cfg.outcome, Some(oware::Outcome::WonBy(Player::A)));
}
