//! What can go wrong when a parser is built, run, saved or loaded.

use vstd::prelude::*;

verus! {

#[derive(Clone, Copy, Debug, PartialEq, Eq, Structural)]
pub enum GazetteerParserError {
    /// The values and tokens of a gazetteer are too many for indices and counts of 32 bits.
    TooManySymbols,
    /// A symbol that should have one index has several.
    AmbiguousSymbol,
    /// No symbol has this index.
    MissingIndex(u32),
    /// The resolved value has no tokens.
    MissingResolvedValue(u32),
    /// The token occurs in no resolved value.
    MissingToken(u32),
    /// A file does not hold the table that it should.
    Undecodable,
}

pub type GazetteerParserResult<T> = Result<T, GazetteerParserError>;

} // verus!
