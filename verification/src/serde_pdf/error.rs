//! Errors of reading and writing PDF objects.
use vstd::prelude::*;

verus! {

/// An error raised while reading or writing a PDF object.
#[derive(Debug, Clone, PartialEq)]
pub enum Error {
    /// A message of a data structure's own.
    Message(String),
    Eof,
    Syntax,
    ExpectedBoolean,
    ExpectedInteger,
    ExpectedUnsignedInteger,
    ExpectedFloat,
    ExpectedString,
    ExpectedName,
    ExpectedChar,
    ExpectedNull,
    ExpectedArray,
    ExpectedArrayComma,
    ExpectedArrayEnd,
    ExpectedMap,
    ExpectedMapColon,
    ExpectedMapComma,
    ExpectedMapEnd,
    ExpectedEnum,
    TrailingCharacters,
    NumberOverflow,
    InvalidEscapeSequence,
    MapKeyMustBeAString,
}

} // verus!
