//! Authoritative game engine for Carioca, a nine-round rummy variant:
//! cards and decks, meld rules, the meld finder used by bots, the per-room
//! game state machine, the bot policy, the room's decisions and the lobby
//! queue.

pub mod card;
pub mod rules;
pub mod points;
pub mod deck;
pub mod combo_finder;
pub mod game;
pub mod ids;
pub mod events;
pub mod bot;
pub mod room;
pub mod lobby;
