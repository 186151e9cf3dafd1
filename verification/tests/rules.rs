//! Rule-engine behaviour: legality, sowing, capture, endgames, outcomes,
//! and seed conservation.

use oware::{Outcome, Oware, Player};

fn snapshot(b: &Oware) -> (Vec<u8>, u8, u8, Player, Option<Outcome>) {
    let mut pits = Vec::new();
    for side in [Player::A, Player::B] {
        for i in 0..b.pits_per_side() {
            pits.push(b.get_seeds(side, i));
        }
    }
    (pits, b.score(Player::A), b.score(Player::B), b.next_player(), b.outcome())
}

fn total(b: &Oware) -> u32 {
    let mut sum: u32 = 0;
    for side in [Player::A, Player::B] {
        for i in 0..b.pits_per_side() {
            sum += b.get_seeds(side, i) as u32;
        }
        sum += b.score(side) as u32;
    }
    sum
}

#[test]
fn fresh_board_layout() {
    let b = Oware::new(6, 4);
    assert_eq!(b.pits_per_side(), 6);
    assert_eq!(b.init_seeds(), 4);
    assert_eq!(b.next_player(), Player::A);
    assert_eq!(b.outcome(), None);
    assert!(!b.is_done());
    for side in [Player::A, Player::B] {
        assert_eq!(b.score(side), 0);
        for i in 0..6 {
            assert_eq!(b.get_seeds(side, i), 4);
        }
    }
    assert_eq!(total(&b), 48);
}

#[test]
fn fresh_board_all_moves_available() {
    let b = Oware::new(6, 4);
    for mv in 0..6 {
        assert!(b.is_available_move(mv));
    }
}

#[test]
fn out_of_range_moves_unavailable() {
    let b = Oware::new(6, 4);
    assert!(!b.is_available_move(6));
    assert!(!b.is_available_move(7));
    assert!(!b.is_available_move(11));
    assert!(!b.is_available_move(100));
    assert!(!b.is_available_move(usize::MAX));
}

#[test]
fn empty_pit_unavailable() {
    let mut b = Oware::new(6, 4);
    b.play(0); // A empties pit 0
    b.play(0); // B empties pit 0
    assert_eq!(b.next_player(), Player::A);
    assert!(!b.is_available_move(0));
    for mv in 1..6 {
        assert!(b.is_available_move(mv));
    }
}

#[test]
fn sowing_distributes_one_seed_per_following_pit() {
    // the only legal moves all carry four seeds; playing pit 0 must drop
    // one seed into each of the next four pits and none back into pit 0
    let mut b = Oware::new(6, 4);
    b.play(0);
    assert_eq!(b.get_seeds(Player::A, 0), 0);
    for i in 1..5 {
        assert_eq!(b.get_seeds(Player::A, i), 5);
    }
    assert_eq!(b.get_seeds(Player::A, 5), 4);
    for i in 0..6 {
        assert_eq!(b.get_seeds(Player::B, i), 4);
    }
    assert_eq!(b.next_player(), Player::B);
    assert_eq!(total(&b), 48);
}

#[test]
fn sowing_skips_the_source_pit_on_a_full_lap() {
    // twelve seeds in one pit wrap the whole board: every other pit gets
    // exactly one, the eleventh and twelfth continue past the source
    let mut b = Oware {
        p: 6,
        init_seeds: 1,
        pits: vec![12, 0, 0, 0, 0, 0, 0, 0, 0, 0, 0, 0],
        score_a: 0,
        score_b: 0,
        next: Player::A,
        outcome: None,
    };
    b.play(0);
    assert_eq!(b.get_seeds(Player::A, 0), 0);
    // eleven pits get one seed on the first lap, the twelfth seed lands
    // one past the source again
    assert_eq!(b.get_seeds(Player::A, 1), 2);
    for i in 2..6 {
        assert_eq!(b.get_seeds(Player::A, i), 1);
    }
    for i in 0..6 {
        // opponent pits went from 0 to 1, and a final count of 2 in the
        // last-dropped pit would be captured; the last seed landed on the
        // mover's own side, so nothing is captured
        assert_eq!(b.get_seeds(Player::B, i), 1);
    }
    assert_eq!(total(&b), 12);
}

#[test]
fn play_on_unavailable_move_is_ignored() {
    let mut b = Oware::new(6, 4);
    let before = snapshot(&b);
    b.play(9);
    assert_eq!(snapshot(&b), before);
}

#[test]
fn capture_takes_the_final_chain() {
    // A sows two seeds; the last lands on B's first pit raising it to 2,
    // which A captures; the walk backwards stops at B's other pit
    let mut b = Oware {
        p: 2,
        init_seeds: 2,
        pits: vec![2, 0, 1, 2],
        score_a: 1,
        score_b: 2,
        next: Player::A,
        outcome: None,
    };
    assert_eq!(total(&b), 8);
    assert!(b.is_available_move(0));
    b.play(0);
    // sowing left A=[0,1] and B=[2,2]; the last seed landed on B's first
    // pit, which is captured, while B's second pit survives
    assert_eq!(b.score(Player::A), 3);
    assert_eq!(b.get_seeds(Player::B, 0), 0);
    assert_eq!(b.get_seeds(Player::B, 1), 2);
    assert_eq!(b.score(Player::B), 2);
    assert_eq!(total(&b), 8);
    assert!(!b.is_done());
}

#[test]
fn capture_of_every_opponent_seed_is_forfeited() {
    // the sowing would raise both of B's pits to 3 and the capture chain
    // would take them all; such a grand slam forfeits the capture
    let mut b = Oware {
        p: 2,
        init_seeds: 2,
        pits: vec![0, 2, 2, 2],
        score_a: 1,
        score_b: 1,
        next: Player::A,
        outcome: None,
    };
    assert_eq!(total(&b), 8);
    b.play(1);
    assert_eq!(b.score(Player::A), 1, "no capture may happen");
    assert_eq!(b.get_seeds(Player::B, 0), 3);
    assert_eq!(b.get_seeds(Player::B, 1), 3);
    assert_eq!(total(&b), 8);
    assert!(!b.is_done());
}

#[test]
fn starvation_ends_the_game_and_awards_the_rest() {
    // A's last move empties A's side; B cannot reach A with any move, so
    // B's seeds leave the board and the scores decide the game
    let mut b = Oware::new(2, 1);
    b.play(0); // A: [0,2] B: [1,1]
    b.play(0); // B: [0,2] A: [0,2]
    assert_eq!(b.next_player(), Player::A);
    b.play(1);
    // A sowed its two seeds onto B's side, raising B's second pit to 3,
    // and captured the chain of 3; A's side is empty and B's lone seed
    // cannot cross, so B pockets it and the game ends
    assert!(b.is_done());
    assert_eq!(b.score(Player::A), 3);
    assert_eq!(b.score(Player::B), 1);
    assert_eq!(b.outcome(), Some(Outcome::WonBy(Player::A)));
    assert_eq!(total(&b), 4);
}

#[test]
fn outcome_is_stable_and_done_board_ignores_play() {
    let mut b = Oware::new(2, 1);
    b.play(0);
    b.play(0);
    b.play(1);
    assert!(b.is_done());
    let first = b.outcome();
    let second = b.outcome();
    assert_eq!(first, second);
    let state = snapshot(&b);
    b.play(0);
    assert_eq!(snapshot(&b), state, "a decided game absorbs no move");
    for mv in 0..2 {
        assert!(!b.is_available_move(mv));
    }
}

#[test]
fn two_lone_seeds_half_a_board_apart_stalemate() {
    // after A's move the two last seeds sit six pits apart: the game is
    // drawn, each player pockets one seed
    let mut b = Oware {
        p: 6,
        init_seeds: 1,
        pits: vec![0, 1, 0, 0, 0, 0, 0, 0, 1, 0, 0, 0],
        score_a: 5,
        score_b: 5,
        next: Player::A,
        outcome: None,
    };
    assert_eq!(total(&b), 12);
    b.play(1);
    assert!(b.is_done());
    assert_eq!(b.outcome(), Some(Outcome::Draw));
    assert_eq!(b.score(Player::A), 6);
    assert_eq!(b.score(Player::B), 6);
    for side in [Player::A, Player::B] {
        for i in 0..6 {
            assert_eq!(b.get_seeds(side, i), 0);
        }
    }
}

#[test]
fn majority_score_wins() {
    let mut b = Oware::new(2, 1);
    b.play(0);
    b.play(0);
    b.play(1);
    // 3 of 4 seeds beat the half of 2
    assert_eq!(b.outcome(), Some(Outcome::WonBy(Player::A)));
}

#[test]
fn conservation_across_many_moves() {
    let mut b = Oware::new(6, 4);
    let mut guard = 0;
    while !b.is_done() && guard < 500 {
        let mut played = false;
        for mv in 0..6 {
            if b.is_available_move(mv) {
                b.play(mv);
                played = true;
                break;
            }
        }
        assert!(played, "a live game always offers a move");
        assert_eq!(total(&b), 48);
        guard += 1;
    }
    assert_eq!(total(&b), 48);
}

#[test]
fn only_nonempty_pit_is_the_only_move_and_empties() {
    // a player down to one non-empty pit has exactly that one legal move,
    // and playing it empties the pit, spreading one seed per later pit
    let mut b = Oware {
        p: 6,
        init_seeds: 1,
        pits: vec![0, 0, 3, 0, 0, 0, 1, 1, 1, 1, 1, 1],
        score_a: 1,
        score_b: 2,
        next: Player::A,
        outcome: None,
    };
    assert_eq!(total(&b), 12);
    for mv in 0..6 {
        assert_eq!(b.is_available_move(mv), mv == 2);
    }
    b.play(2);
    assert_eq!(b.get_seeds(Player::A, 2), 0);
    assert_eq!(b.get_seeds(Player::A, 3), 1);
    assert_eq!(b.get_seeds(Player::A, 4), 1);
    assert_eq!(b.get_seeds(Player::A, 5), 1);
    for i in 0..6 {
        assert_eq!(b.get_seeds(Player::B, i), 1);
    }
    assert_eq!(b.next_player(), Player::B);
    assert_eq!(total(&b), 12);
}
