//! Why a piece of dice notation yields no result.

use vstd::prelude::*;

verus! {

/// What the grammar wanted at the place where the input stopped conforming.
#[derive(Clone, Copy, Debug, PartialEq, Eq, Structural)]
pub enum Expected {
    /// A number: the start of a term, the size of a die, or the number that
    /// a keep or reroll suffix takes.
    Integer,
    /// An operator, a comment or the end of the input.
    Operator,
}

/// Every failure is handed back as one of these values. A failing expression
/// yields neither a display nor a total.
#[derive(Clone, Copy, Debug, PartialEq, Eq, Structural)]
pub enum ParseError {
    /// The input does not conform to the grammar. `position` counts the
    /// characters before the offending one; it is the length of the input
    /// where the input ends too early. Everything before it is ASCII, so it
    /// is a byte offset as well.
    SyntaxError { position: usize, expected: Expected },
    /// The right-hand side of a division came to zero.
    DivideByZero,
    /// A die term asks for no dice at all.
    NoDice,
    /// A keep suffix asks for more dice than the term rolls.
    KeepExceedsCount,
    /// A number in the notation, or a total on the way, does not fit a
    /// signed 64-bit integer. Of a number in the notation this is said only
    /// where the whole text conforms to the grammar.
    Overflow,
}

} // verus!
