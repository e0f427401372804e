//! Parsers and solvers for a set of line-oriented puzzle inputs.
//!
//! Each input is read in two steps: a line tokenizer turns the characters
//! of a line into tokens, and a builder turns the tokens into a record.
//! What is then computed from the records stands beside them.
//!
//! - `tokenizer`: the line tokenizer, for any grammar of keywords,
//!   separators and numbers.
//! - `card`, `deck`: scratch cards and decks of them.
//! - `game`: cube games.
//! - `race`: boat races.
//! - `schematic`: engine schematics.
//! - `almanac`: seeds and the maps that they go through.
//! - `hand`: hands of cards.
//! - `error`, `text`, `tally`: the errors, and what the others share.

pub mod almanac;
pub mod card;
pub mod deck;
pub mod error;
pub mod game;
pub mod hand;
pub mod race;
pub mod schematic;
pub mod tally;
pub mod text;
pub mod tokenizer;
