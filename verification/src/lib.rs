//! Combat and Recursive Combat: two-player card games on ordered decks,
//! with the rules stated as specification functions and the engines proved
//! against them.
//!
//! - `deck`: what a valid deck is, and copying and comparing decks;
//! - `rules`: what both games share, and the conservation of cards;
//! - `simple`: Combat, where the higher card takes the round;
//! - `recursive`: Recursive Combat, where a sub-game may decide a round and
//!   a position met twice ends the game;
//! - `seen`: the set of positions that a game has met;
//! - `positions`: why a game that meets no position twice must end;
//! - `score`: the checksum of a winning deck;
//! - `input`: the reader of a list of two decks.
//!
//! A game fails with a `GameError` where the rules decide nothing: when two
//! equal cards meet, or a player has no card to draw.

pub mod deck;
pub mod input;
pub mod positions;
pub mod recursive;
pub mod rules;
pub mod score;
pub mod seen;
pub mod simple;

pub use crate::input::{parse_card, read_decks};
pub use crate::recursive::{game_2, part_2, round_2, RoundResult};
pub use crate::rules::{GameError, RoundOutcome};
pub use crate::score::score;
pub use crate::seen::SeenStates;
pub use crate::simple::{game, game_ends, part_1, round};
