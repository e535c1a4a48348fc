//! Errors of decoding and of typed access to a value.
use vstd::prelude::*;

verus! {

/// The four shapes a value can take.
#[derive(Debug, Clone, Copy, PartialEq, Eq, Structural)]
pub enum BencodeKind {
    Integer,
    ByteString,
    List,
    Dict,
}

/// Why decoding or a typed access failed. Each decoding error carries the
/// byte offset at which the failure was found.
#[derive(Debug, Clone, Copy, PartialEq, Eq, Structural)]
pub enum BencodeError {
    /// An integer with no closing `e`.
    UnterminatedInteger(usize),
    /// The text of an integer is not a canonical decimal that fits in 64 bits.
    MalformedInteger(usize),
    /// A string with no `:`, or whose length runs past the end of the input.
    UnterminatedString(usize),
    /// The length prefix of a string is not a canonical decimal.
    MalformedStringLength(usize),
    /// The input ends inside a list.
    UnterminatedList(usize),
    /// The input ends inside a dictionary.
    UnterminatedDict(usize),
    /// A dictionary key that is not a byte string.
    NonStringDictKey(usize),
    /// A dictionary that ends after a key, before its value.
    OddDictEntryCount(usize),
    /// A byte that starts no value, or no byte at all.
    UnknownTag(usize),
    /// Bytes left over after the top-level value.
    TrailingBytes(usize),
    /// Lists and dictionaries nested deeper than the limit.
    RecursionLimitExceeded(usize),
    /// A typed access found another shape of value than it asked for.
    TypeMismatch { expected: BencodeKind, actual: BencodeKind },
}

} // verus!
