//! The game's configuration record and the decision logic behind its
//! menus: which screen to open, what each menu action changes, and how
//! actions translate into game-state transitions. The widgets themselves
//! are presentation and live outside this crate.

use vstd::prelude::*;

use crate::components::{Actor, Ai};
use crate::player::{Outcome, OutcomeWDL, Player};

verus! {

/// The coarse phases of the application.
#[derive(Clone, Copy, Debug, PartialEq, Eq, Hash, Structural)]
pub enum GameState {
    Loading,
    Game,
    Menu,
}

/// The menu screens.
#[derive(Clone, Copy, Debug, PartialEq, Eq, Hash, Structural)]
pub enum Screens {
    Game,
    Pause,
    NewGame,
    GameOver,
    Seeds,
}

/// The in-memory game configuration: which side the human plays, the
/// selected bot strategy, the initial seeds per pit, the outcome of the
/// last game if one finished, and whether a new game was requested.
#[derive(Clone, Copy, Debug, PartialEq, Eq, Structural)]
pub struct OwareCfg {
    pub human_is_first: bool,
    pub ai: Ai,
    pub new_game: bool,
    pub outcome: Option<Outcome>,
    pub init_seeds: u8,
}

impl Default for OwareCfg {
    /// The shipped defaults: the human plays first against the random
    /// bot, four seeds per pit, no game finished and none requested yet.
    fn default() -> (r: Self)
        ensures
            r.human_is_first,
            r.ai == Ai::Random,
            !r.new_game,
            r.outcome is None,
            r.init_seeds == 4,
    {
        OwareCfg {
            human_is_first: true,
            ai: Ai::Random,
            new_game: false,
            outcome: None,
            init_seeds: 4,
        }
    }
}

impl OwareCfg {
    /// Which player index the human controls: the second seat when the
    /// human moves first belongs to the bot, and the other way round.
    pub open spec fn human_index(self) -> int {
        if self.human_is_first {
            0
        } else {
            1
        }
    }

    /// The actor playing the given side: the configured bot on its seat,
    /// the human on the other.
    pub fn get_actor(&self, player: Player) -> (r: Actor)
        ensures
            r == (if player.index_spec() == self.human_index() {
                Actor::Human
            } else {
                Actor::Bot(self.ai)
            }),
    {
        if self.is_human(player) {
            Actor::Human
        } else {
            Actor::Bot(self.ai)
        }
    }

    /// Whether the given side is played by the human.
    pub fn is_human(&self, player: Player) -> (r: bool)
        ensures
            r == (player.index_spec() == self.human_index()),
    {
        match player {
            Player::A => self.human_is_first,
            Player::B => !self.human_is_first,
        }
    }

    /// The last game's outcome from the human's point of view, rendered
    /// as the menu headline.
    pub fn outcome(&self) -> (r: String)
        ensures
            r@ == self.outcome_label(),
    {
        let pov = if self.human_is_first {
            Player::A
        } else {
            Player::B
        };
        match self.outcome {
            None => "None".to_owned(),
            Some(o) => match o.pov(pov) {
                OutcomeWDL::Win => "Some(Win)".to_owned(),
                OutcomeWDL::Draw => "Some(Draw)".to_owned(),
                OutcomeWDL::Loss => "Some(Loss)".to_owned(),
            },
        }
    }

    /// The text the headline shows for each outcome.
    pub open spec fn outcome_label(self) -> Seq<char> {
        let pov = if self.human_is_first {
            Player::A
        } else {
            Player::B
        };
        match self.outcome {
            None => "None"@,
            Some(o) => match o.pov_spec(pov) {
                OutcomeWDL::Win => "Some(Win)"@,
                OutcomeWDL::Draw => "Some(Draw)"@,
                OutcomeWDL::Loss => "Some(Loss)"@,
            },
        }
    }
}

/// The actions the menus can trigger.
#[derive(Clone, Copy, Debug, PartialEq, Eq, Hash, Structural)]
pub enum Actions {
    Resume,
    Pause,
    Quit,
    NewGame,
    PlayerAsFirst,
    Bot(Ai),
    SetSeeds(u8),
}

impl Actions {
    /// Apply this action to the configuration. The returned flag tells
    /// the caller to forward the action to the event bus: configuration
    /// toggles are absorbed here, while resume, pause, quit and the new
    /// game request must also reach the state machine.
    pub fn handle(&self, state: &mut OwareCfg) -> (forward: bool)
        ensures
            *final(state) == self.handle_spec(*old(state)),
            forward == self.forwards(),
    {
        match self {
            Actions::Pause | Actions::Resume | Actions::Quit => true,
            Actions::NewGame => {
                state.new_game = true;
                true
            },
            Actions::PlayerAsFirst => {
                state.human_is_first = !state.human_is_first;
                false
            },
            Actions::Bot(ai) => {
                state.ai = *ai;
                false
            },
            Actions::SetSeeds(n) => {
                state.init_seeds = *n;
                false
            },
        }
    }

    /// What `handle` makes of a configuration.
    pub open spec fn handle_spec(self, state: OwareCfg) -> OwareCfg {
        match self {
            Actions::Pause | Actions::Resume | Actions::Quit => state,
            Actions::NewGame => OwareCfg { new_game: true, ..state },
            Actions::PlayerAsFirst => OwareCfg {
                human_is_first: !state.human_is_first,
                ..state
            },
            Actions::Bot(ai) => OwareCfg { ai, ..state },
            Actions::SetSeeds(n) => OwareCfg { init_seeds: n, ..state },
        }
    }

    /// Whether the action is forwarded to the event bus.
    pub open spec fn forwards(self) -> bool {
        match self {
            Actions::Pause | Actions::Resume | Actions::Quit | Actions::NewGame => true,
            _ => false,
        }
    }

    /// The application state a forwarded action switches to: resuming or
    /// starting a game enters play, pausing opens the menu, quitting
    /// leaves the state machine alone (the application exits instead).
    pub fn next_state(&self) -> (r: Option<GameState>)
        ensures
            r == (match self {
                Actions::Resume | Actions::NewGame => Some(GameState::Game),
                Actions::Pause => Some(GameState::Menu),
                _ => None::<GameState>,
            }),
    {
        match self {
            Actions::Resume | Actions::NewGame => Some(GameState::Game),
            Actions::Pause => Some(GameState::Menu),
            _ => None,
        }
    }
}

/// One entry of a menu screen, ready for any widget layer to render: a
/// headline, a plain label, an action button with its checked mark, or a
/// link to another screen.
#[derive(Clone, Debug, PartialEq, Eq)]
pub enum MenuEntry {
    Headline(String),
    Label(String),
    Action(String, Actions, bool),
    Link(String, Screens),
}

/// Whether an action is rendered with a checked mark under the given
/// configuration: exactly the configuration toggles show their state.
pub open spec fn checked_spec(cfg: OwareCfg, a: Actions) -> bool {
    match a {
        Actions::PlayerAsFirst => cfg.human_is_first,
        Actions::Bot(x) => cfg.ai == x,
        Actions::SetSeeds(n) => cfg.init_seeds == n,
        _ => false,
    }
}

impl Screens {
    /// The entries this screen shows for a configuration: the pause menu,
    /// the minimal in-game menu, the game-over screen headed by the last
    /// outcome, the new-game screen with the seat and bot choices, and
    /// the seed-count picker. Every checked mark reflects the
    /// configuration exactly.
    pub fn resolve(&self, state: &OwareCfg) -> (r: Vec<MenuEntry>)
        ensures
            forall|k: int|
                0 <= k < r@.len() ==> ((#[trigger] r@[k]) matches MenuEntry::Action(_, a, c)
                    ==> c == checked_spec(*state, a)),
            self is Pause ==> r@.len() == 4 && (r@[0] matches MenuEntry::Headline(h)
                && h@ == "Paused"@) && (r@[1] matches MenuEntry::Action(l, a, _)
                && l@ == "Resume"@ && a == Actions::Resume) && (r@[2] matches MenuEntry::Link(
                l,
                s,
            ) && l@ == "New Game"@ && s == Screens::NewGame) && (
            r@[3] matches MenuEntry::Action(l, a, _) && l@ == "Quit"@ && a == Actions::Quit),
            self is Game ==> r@.len() == 1 && (r@[0] matches MenuEntry::Action(l, a, _)
                && l@ == "Pause"@ && a == Actions::Pause),
            self is GameOver ==> r@.len() == 3 && (r@[0] matches MenuEntry::Headline(h)
                && h@ == state.outcome_label()) && (r@[1] matches MenuEntry::Link(l, s)
                && l@ == "New Game"@ && s == Screens::NewGame) && (
            r@[2] matches MenuEntry::Action(l, a, _) && l@ == "Quit"@ && a == Actions::Quit),
            self is NewGame ==> r@.len() == 12 && (r@[0] matches MenuEntry::Headline(h)
                && h@ == "Oware"@) && (r@[1] matches MenuEntry::Action(l, a, _)
                && l@ == "Start a New Game"@ && a == Actions::NewGame) && (
            r@[2] matches MenuEntry::Label(l) && l@ == "Configuration"@) && (
            r@[3] matches MenuEntry::Label(l) && l@ == "Player Position"@) && (
            r@[4] matches MenuEntry::Action(l, a, _) && l@ == "Is First"@
                && a == Actions::PlayerAsFirst) && (r@[5] matches MenuEntry::Link(l, s)
                && l@ == "Initial Seeds"@ && s == Screens::Seeds) && (
            r@[6] matches MenuEntry::Label(l) && l@ == "Bot Type"@) && (
            r@[7] matches MenuEntry::Action(l, a, _) && l@ == "Random"@ && a == Actions::Bot(
                Ai::Random,
            )) && (r@[8] matches MenuEntry::Action(l, a, _) && l@ == "Rollout(27)"@
                && a == Actions::Bot(Ai::Rollout(27))) && (r@[9] matches MenuEntry::Action(
                l,
                a,
                _,
            ) && l@ == "Rollout(729)"@ && a == Actions::Bot(Ai::Rollout(729))) && (
            r@[10] matches MenuEntry::Action(l, a, _) && l@ == "Mcts(27, 1)"@ && a == Actions::Bot(
                Ai::Mcts(27, 1),
            )) && (r@[11] matches MenuEntry::Action(l, a, _) && l@ == "Mcts(729, 2)"@
                && a == Actions::Bot(Ai::Mcts(729, 2))),
            self is Seeds ==> r@.len() == 4 && (r@[0] matches MenuEntry::Headline(h)
                && h@ == "Initial Seeds"@) && (r@[1] matches MenuEntry::Action(l, a, _)
                && l@ == "3"@ && a == Actions::SetSeeds(3)) && (r@[2] matches MenuEntry::Action(
                l,
                a,
                _,
            ) && l@ == "4"@ && a == Actions::SetSeeds(4)) && (r@[3] matches MenuEntry::Action(
                l,
                a,
                _,
            ) && l@ == "5"@ && a == Actions::SetSeeds(5)),
    {
        let mut items: Vec<MenuEntry> = Vec::new();
        match self {
            Screens::Pause => {
                items.push(MenuEntry::Headline("Paused".to_owned()));
                items.push(MenuEntry::Action("Resume".to_owned(), Actions::Resume, false));
                items.push(MenuEntry::Link("New Game".to_owned(), Screens::NewGame));
                items.push(MenuEntry::Action("Quit".to_owned(), Actions::Quit, false));
            },
            Screens::Game => {
                items.push(MenuEntry::Action("Pause".to_owned(), Actions::Pause, false));
            },
            Screens::GameOver => {
                items.push(MenuEntry::Headline(state.outcome()));
                items.push(MenuEntry::Link("New Game".to_owned(), Screens::NewGame));
                items.push(MenuEntry::Action("Quit".to_owned(), Actions::Quit, false));
            },
            Screens::NewGame => {
                items.push(MenuEntry::Headline("Oware".to_owned()));
                items.push(
                    MenuEntry::Action("Start a New Game".to_owned(), Actions::NewGame, false),
                );
                items.push(MenuEntry::Label("Configuration".to_owned()));
                items.push(MenuEntry::Label("Player Position".to_owned()));
                items.push(
                    MenuEntry::Action(
                        "Is First".to_owned(),
                        Actions::PlayerAsFirst,
                        state.human_is_first,
                    ),
                );
                items.push(MenuEntry::Link("Initial Seeds".to_owned(), Screens::Seeds));
                items.push(MenuEntry::Label("Bot Type".to_owned()));
                items.push(
                    MenuEntry::Action(
                        "Random".to_owned(),
                        Actions::Bot(Ai::Random),
                        self.bot_checked(state, Ai::Random),
                    ),
                );
                items.push(
                    MenuEntry::Action(
                        "Rollout(27)".to_owned(),
                        Actions::Bot(Ai::Rollout(27)),
                        self.bot_checked(state, Ai::Rollout(27)),
                    ),
                );
                items.push(
                    MenuEntry::Action(
                        "Rollout(729)".to_owned(),
                        Actions::Bot(Ai::Rollout(729)),
                        self.bot_checked(state, Ai::Rollout(729)),
                    ),
                );
                items.push(
                    MenuEntry::Action(
                        "Mcts(27, 1)".to_owned(),
                        Actions::Bot(Ai::Mcts(27, 1)),
                        self.bot_checked(state, Ai::Mcts(27, 1)),
                    ),
                );
                items.push(
                    MenuEntry::Action(
                        "Mcts(729, 2)".to_owned(),
                        Actions::Bot(Ai::Mcts(729, 2)),
                        self.bot_checked(state, Ai::Mcts(729, 2)),
                    ),
                );
            },
            Screens::Seeds => {
                items.push(MenuEntry::Headline("Initial Seeds".to_owned()));
                items.push(
                    MenuEntry::Action(
                        "3".to_owned(),
                        Actions::SetSeeds(3),
                        state.init_seeds == 3,
                    ),
                );
                items.push(
                    MenuEntry::Action(
                        "4".to_owned(),
                        Actions::SetSeeds(4),
                        state.init_seeds == 4,
                    ),
                );
                items.push(
                    MenuEntry::Action(
                        "5".to_owned(),
                        Actions::SetSeeds(5),
                        state.init_seeds == 5,
                    ),
                );
            },
        }
        items
    }

    /// Whether the bot choice `x` is the configured one.
    fn bot_checked(&self, state: &OwareCfg, x: Ai) -> (r: bool)
        ensures
            r == (state.ai == x),
    {
        state.ai == x
    }
}

impl OwareCfg {
    /// Map a released number key to the bowl it selects: keys 1 through 6
    /// pick the human's pits in order; other keys select nothing.
    pub fn key_to_bowl(&self, key: u8) -> (r: Option<usize>)
        ensures
            1 <= key <= 6 ==> r == Some(
                ((key - 1) + if self.human_is_first {
                    0int
                } else {
                    6int
                }) as usize,
            ),
            !(1 <= key <= 6) ==> r is None,
    {
        if 1 <= key && key <= 6 {
            let base: usize = if self.human_is_first {
                0
            } else {
                6
            };
            Some(base + (key - 1) as usize)
        } else {
            None
        }
    }
}

/// The screen the menu opens on: the last outcome when a game just
/// finished, the new-game screen on first launch, a minimal in-game menu
/// while playing, and the pause screen otherwise.
pub fn initial_screen(cfg_is_fresh: bool, in_game: bool, cfg: &OwareCfg) -> (r: Screens)
    ensures
        cfg.outcome is Some ==> r == Screens::GameOver,
        cfg.outcome is None && cfg_is_fresh ==> r == Screens::NewGame,
        cfg.outcome is None && !cfg_is_fresh && in_game ==> r == Screens::Game,
        cfg.outcome is None && !cfg_is_fresh && !in_game ==> r == Screens::Pause,
{
    if cfg.outcome.is_some() {
        Screens::GameOver
    } else if cfg_is_fresh {
        Screens::NewGame
    } else if in_game {
        Screens::Game
    } else {
        Screens::Pause
    }
}

/// Whether the board entities should be torn down when the menu opens: a
/// new game was requested, or the last game ended.
pub fn cleanup(cfg: &OwareCfg) -> (r: bool)
    ensures
        r == (cfg.new_game || cfg.outcome is Some),
{
    cfg.new_game || cfg.outcome.is_some()
}

} // verus!
