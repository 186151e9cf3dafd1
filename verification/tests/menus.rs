//! Configuration, menu actions, screen choice, and the point-of-view
//! transform on outcomes.

use oware::{
    cleanup, initial_screen, Actions, Actor, Ai, Bowl, GameState, MenuEntry, Outcome, OutcomeWDL,
    OwareCfg, Player, Screens,
};

#[test]
fn default_configuration() {
    let cfg = OwareCfg::default();
    assert!(cfg.human_is_first);
    assert_eq!(cfg.ai, Ai::Random);
    assert!(!cfg.new_game);
    assert_eq!(cfg.outcome, None);
    assert_eq!(cfg.init_seeds, 4);
}

#[test]
fn actors_follow_the_seat_choice() {
    let mut cfg = OwareCfg::default();
    assert!(cfg.is_human(Player::A));
    assert!(!cfg.is_human(Player::B));
    assert_eq!(cfg.get_actor(Player::A), Actor::Human);
    assert_eq!(cfg.get_actor(Player::B), Actor::Bot(Ai::Random));
    cfg.human_is_first = false;
    assert!(!cfg.is_human(Player::A));
    assert!(cfg.is_human(Player::B));
    assert_eq!(cfg.get_actor(Player::A), Actor::Bot(Ai::Random));
    assert_eq!(cfg.get_actor(Player::B), Actor::Human);
}

#[test]
fn actions_update_the_configuration() {
    let mut cfg = OwareCfg::default();
    assert!(Actions::NewGame.handle(&mut cfg));
    assert!(cfg.new_game);
    assert!(!Actions::PlayerAsFirst.handle(&mut cfg));
    assert!(!cfg.human_is_first);
    assert!(!Actions::PlayerAsFirst.handle(&mut cfg));
    assert!(cfg.human_is_first);
    assert!(!Actions::Bot(Ai::Mcts(729, 2)).handle(&mut cfg));
    assert_eq!(cfg.ai, Ai::Mcts(729, 2));
    assert!(!Actions::SetSeeds(5).handle(&mut cfg));
    assert_eq!(cfg.init_seeds, 5);
    assert!(Actions::Resume.handle(&mut cfg));
    assert!(Actions::Pause.handle(&mut cfg));
    assert!(Actions::Quit.handle(&mut cfg));
}

#[test]
fn forwarded_actions_switch_states() {
    assert_eq!(Actions::Resume.next_state(), Some(GameState::Game));
    assert_eq!(Actions::NewGame.next_state(), Some(GameState::Game));
    assert_eq!(Actions::Pause.next_state(), Some(GameState::Menu));
    assert_eq!(Actions::Quit.next_state(), None);
    assert_eq!(Actions::SetSeeds(4).next_state(), None);
}

#[test]
fn screen_choice() {
    let mut cfg = OwareCfg::default();
    assert_eq!(initial_screen(true, false, &cfg), Screens::NewGame);
    assert_eq!(initial_screen(false, true, &cfg), Screens::Game);
    assert_eq!(initial_screen(false, false, &cfg), Screens::Pause);
    cfg.outcome = Some(Outcome::Draw);
    assert_eq!(initial_screen(false, true, &cfg), Screens::GameOver);
}

#[test]
fn cleanup_when_requested_or_finished() {
    let mut cfg = OwareCfg::default();
    assert!(!cleanup(&cfg));
    cfg.new_game = true;
    assert!(cleanup(&cfg));
    cfg.new_game = false;
    cfg.outcome = Some(Outcome::WonBy(Player::B));
    assert!(cleanup(&cfg));
}

#[test]
fn outcome_labels_take_the_human_point_of_view() {
    let mut cfg = OwareCfg::default();
    assert_eq!(cfg.outcome(), "None");
    cfg.outcome = Some(Outcome::WonBy(Player::A));
    assert_eq!(cfg.outcome(), "Some(Win)");
    cfg.human_is_first = false;
    assert_eq!(cfg.outcome(), "Some(Loss)");
    cfg.outcome = Some(Outcome::Draw);
    assert_eq!(cfg.outcome(), "Some(Draw)");
}

#[test]
fn pov_round_trip() {
    for o in [Outcome::WonBy(Player::A), Outcome::WonBy(Player::B), Outcome::Draw] {
        for pov in [Player::A, Player::B] {
            assert_eq!(o.pov(pov).un_pov(pov), o);
        }
    }
    assert_eq!(Outcome::WonBy(Player::B).pov(Player::B), OutcomeWDL::Win);
    assert_eq!(Outcome::WonBy(Player::B).pov(Player::A), OutcomeWDL::Loss);
    assert_eq!(Outcome::Draw.pov(Player::A), OutcomeWDL::Draw);
}

#[test]
fn bowls_step_around_the_ring_skipping_the_source() {
    let src = Bowl(0);
    assert_eq!(Bowl(5).next(&src, 12).mv(), 6);
    assert_eq!(Bowl(11).next(&src, 12).mv(), 1, "the ring passes over the source");
    let src2 = Bowl(3);
    assert_eq!(Bowl(2).next(&src2, 12).mv(), 4);
    assert!(Bowl(4).is(4));
    assert!(!Bowl(4).is(5));
}

#[test]
fn key_mapping_selects_the_human_pits() {
    let mut cfg = OwareCfg::default();
    assert_eq!(cfg.key_to_bowl(1), Some(0));
    assert_eq!(cfg.key_to_bowl(6), Some(5));
    assert_eq!(cfg.key_to_bowl(0), None);
    assert_eq!(cfg.key_to_bowl(7), None);
    assert_eq!(cfg.key_to_bowl(9), None);
    cfg.human_is_first = false;
    assert_eq!(cfg.key_to_bowl(1), Some(6));
    assert_eq!(cfg.key_to_bowl(6), Some(11));
}

#[test]
fn menu_screens_resolve_with_exact_checked_marks() {
    let mut cfg = OwareCfg::default();
    cfg.ai = Ai::Rollout(729);
    cfg.init_seeds = 5;

    let pause = Screens::Pause.resolve(&cfg);
    assert_eq!(pause.len(), 4);
    // every slot of every screen is pinned, headlines and labels included
    assert_eq!(pause[0], MenuEntry::Headline("Paused".to_owned()));
    assert_eq!(pause[1], MenuEntry::Action("Resume".to_owned(), Actions::Resume, false));
    assert_eq!(pause[2], MenuEntry::Link("New Game".to_owned(), Screens::NewGame));
    assert_eq!(pause[3], MenuEntry::Action("Quit".to_owned(), Actions::Quit, false));

    let game = Screens::Game.resolve(&cfg);
    assert_eq!(game, vec![MenuEntry::Action("Pause".to_owned(), Actions::Pause, false)]);

    let new_game = Screens::NewGame.resolve(&cfg);
    assert_eq!(new_game.len(), 12);
    assert_eq!(new_game[0], MenuEntry::Headline("Oware".to_owned()));
    assert_eq!(
        new_game[1],
        MenuEntry::Action("Start a New Game".to_owned(), Actions::NewGame, false)
    );
    assert_eq!(new_game[2], MenuEntry::Label("Configuration".to_owned()));
    assert_eq!(new_game[3], MenuEntry::Label("Player Position".to_owned()));
    assert_eq!(new_game[5], MenuEntry::Link("Initial Seeds".to_owned(), Screens::Seeds));
    assert_eq!(new_game[6], MenuEntry::Label("Bot Type".to_owned()));
    assert_eq!(
        new_game[4],
        MenuEntry::Action("Is First".to_owned(), Actions::PlayerAsFirst, true)
    );
    assert_eq!(
        new_game[9],
        MenuEntry::Action("Rollout(729)".to_owned(), Actions::Bot(Ai::Rollout(729)), true)
    );
    assert_eq!(
        new_game[7],
        MenuEntry::Action("Random".to_owned(), Actions::Bot(Ai::Random), false)
    );

    let seeds = Screens::Seeds.resolve(&cfg);
    assert_eq!(seeds.len(), 4);
    assert_eq!(seeds[0], MenuEntry::Headline("Initial Seeds".to_owned()));
    assert_eq!(seeds[3], MenuEntry::Action("5".to_owned(), Actions::SetSeeds(5), true));
    assert_eq!(seeds[1], MenuEntry::Action("3".to_owned(), Actions::SetSeeds(3), false));

    cfg.outcome = Some(Outcome::WonBy(Player::A));
    let over = Screens::GameOver.resolve(&cfg);
    assert_eq!(over.len(), 3);
    assert_eq!(over[0], MenuEntry::Headline("Some(Win)".to_owned()));
}
