//! A card game of incomplete knowledge, and the reasoning that plays it.
//!
//! There are as many suits as players and four cards in each suit. A player
//! asks another player for a card of a suit that the asker holds, and gets
//! one where the other player has one. Who holds all four cards of a suit
//! wins; a position that comes again is a draw. Nobody sees a card: all that
//! is known of the hands is what the requests and the answers tell.
//!
//! - [`hand`]: what is known of one hand.
//! - [`cards`]: the table, and the moves on it.
//! - [`inference`]: the rules that draw conclusions, as mathematics.
//! - [`shake`]: `shake_down`, which applies the rules until nothing changes.
//! - [`progress`]: what the rules may do to a hand, and why they come to an end.
//! - [`judge`]: the winner, and whether a player must hold a card.
//! - [`moves`]: the legal moves.
//! - [`position`]: positions as numbers, and the ranking of the suits.
//! - [`canonical`]: why the number of a position does not depend on the
//!   names of the suits.
//! - [`laws`]: what holds of the moves on every table.
//! - [`player`]: what the game asks of a player; [`clever`]: a player that
//!   looks ahead; [`human`]: what a player at the keyboard types.
//! - [`game`]: one turn of the game.
//! - [`show`]: the table as text.
pub mod canonical;
pub mod cards;
pub mod clever;
pub mod game;
pub mod hand;
pub mod human;
pub mod inference;
pub mod judge;
pub mod laws;
pub mod moves;
pub mod player;
pub mod position;
pub mod progress;
pub mod shake;
pub mod show;
