use vstd::prelude::*;

verus! {

/// What was wrong with bytes that could not be decoded.
#[derive(Debug, Clone, Copy, PartialEq, Eq, Structural)]
pub enum ParseErrorKind {
    /// A type id outside `1..=12` where a tag begins, or an element type that
    /// the list header does not allow.
    InvalidTypeId,
    /// A name or a string whose bytes are not modified UTF-8.
    InvalidText,
    /// A compound whose children share a name.
    DuplicateName,
    /// Bytes left over after the root tag.
    TrailingBytes,
}

/// Every way in which encoding or decoding fails.
#[derive(Debug, Clone, Copy, PartialEq, Eq, Structural)]
pub enum Error {
    /// A tag in a named position (the root or a child of a compound) has no name.
    MissingName,
    /// A byte array holds more than `i32::MAX` items.
    ByteArrayTooBig,
    /// A name or string takes more than `u16::MAX` bytes once encoded.
    StringTooBig,
    /// A list holds more than `i32::MAX` items.
    ListTooBig,
    /// An int array holds more than `i32::MAX` items.
    IntArrayTooBig,
    /// A long array holds more than `i32::MAX` items.
    LongArrayTooBig,
    /// The bytes do not follow the grammar.
    ParseError(ParseErrorKind),
    /// The bytes end too early: this many more were needed.
    Incomplete(usize),
}

} // verus!
