//! Machiavelli: the rules of the card game, its save format and its wire
//! protocol, with machine-checked contracts.
//!
//! * [`sequence_cards`] and [`meld`]: cards, sequences of cards, and what
//!   makes a sequence a legal meld.
//! * [`table`]: the melds that have been played.
//! * [`turn`]: what each action of a player does, with [`picking`] and
//!   [`ledger`] for what holds of every turn.
//! * [`session`]: dealing, whose turn it is, and how a round ends.
//! * [`protocol`]: instructions and the framing of messages.
//! * [`save`] and [`encode`]: the bytes in which a game is saved.
//! * [`render`] and [`text`]: what is shown to a player, and what a player
//!   typed.
//! * [`settings`]: the settings and the names of the players as text.

pub mod encode;
pub mod errors;
pub mod ledger;
pub mod meld;
pub mod picking;
pub mod protocol;
pub mod random;
pub mod render;
pub mod save;
pub mod sequence_cards;
pub mod session;
pub mod settings;
pub mod sort;
pub mod table;
pub mod text;
pub mod turn;

pub use errors::{BytesToStringError, InvalidInputError, LoadingError, NoMoreCards, StreamError};
pub use render::{instructions_no_save, reset_style_string, situation_to_string};
pub use save::{game_to_bytes, load_game, Config};
pub use sequence_cards::{Card, Sequence, Suit};
pub use table::Table;
pub use turn::{give_up, pick_a_card, PENALTY_RESET};
