//! Dice notation for tabletop games: parsing, rolling and rendering.
//!
//! A roll such as `2d20k1 + 5  # to hit` is parsed into a tree of numbers,
//! die rolls, operators and a comment, and the tree is evaluated from left
//! to right into a display and a total: `(17+~~5~~) + 5 = 22  # to hit`
//! and `22`.
//!
//! - `grammar` says which text is notation and which tree it stands for;
//!   `parser` reads text by it; `notation` shows that the grammar reads every
//!   writing of a roll and nothing else; `display` shows that no display is
//!   notation.
//! - `roller` is the source of die outcomes: random ones for play, scripted
//!   ones for repeatable rolls.
//! - `dice` rolls one die term and applies its suffix: keep the highest or
//!   the lowest dice, or reroll a face once.
//! - `eval` combines the terms. Operators apply strictly from left to
//!   right, with no precedence: `2 + 3 * 4` is `20`. Division rounds toward
//!   zero: `7 / 2` is `3`, and `1 - 8 / 2` is `-3`.
//! - `roll_parse` goes from the text of a roll to its result.
//!
//! Every failure of a roll comes back as a [`error::ParseError`]. The
//! display is for people to read: it is no notation, and parsing it again is
//! a syntax error.

pub mod dice;
pub mod display;
pub mod error;
pub mod eval;
pub mod grammar;
pub mod notation;
pub mod parser;
pub mod ranking;
pub mod roll_parse;
pub mod roller;
pub mod text;
pub mod tree;
