//! A verified rule engine and turn sequencer for Oware, the West African
//! seed-sowing board game, together with the configuration and menu logic
//! of a small game built around it.
//!
//! The crate proves the core guarantees of the game: seeds are conserved by
//! every move, move legality is characterised exactly, the game is done
//! precisely when the player to move has no legal move, and the sowing
//! animation sequencer schedules one relocation per seed with strictly
//! increasing delays while a single global busy flag gates move acceptance.
//!
//! Bot opponents are provided by the `board_game` crate through a small
//! trusted boundary; every move a bot proposes is re-validated by the
//! verified engine before it is accepted.

mod bots;
mod components;
mod menu;
mod oware;
mod player;
mod session;

pub use components::{Actor, Ai, Bowl, MoveBall};
pub use menu::{cleanup, initial_screen, Actions, GameState, MenuEntry, OwareCfg, Screens};
pub use oware::Oware;
pub use player::{Outcome, OutcomeWDL, Player};
pub use session::{bot_cooldown, delay_millis, sow_targets, Ball, Session, BOT_COOLDOWN_MS};
