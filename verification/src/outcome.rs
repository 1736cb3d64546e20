use vstd::prelude::*;

verus! {

/// Why a decode attempt was rejected. Every kind is reported together with the
/// character offset, within the input that was handed in, of the construct
/// that failed.
#[derive(Clone, Copy, Debug, PartialEq, Eq, Structural)]
pub enum ErrorKind {
    /// The input does not begin with an opening quote.
    NotAString,
    /// A backslash is not followed by any recognized escape grammar.
    InvalidEscape,
    /// A mnemonic escape names a letter outside the fixed table.
    UnknownEscape(char),
    /// A hex escape denotes a value with no corresponding scalar character.
    InvalidCodepoint,
    /// The input ended with no closing quote, and the caller has declared that
    /// no more input will arrive.
    UnterminatedString,
}

/// The tri-state result of a decode attempt over possibly partial input.
///
/// `Done(rest, value)` carries the input left over past the recognized
/// construct and the decoded value. `Incomplete(hint)` means the bytes seen so
/// far decide nothing yet: the caller should re-invoke the same entry point on
/// the same input extended by at least `hint` more characters (when known).
/// `Failed(kind, offset)` is terminal: no extension of the input can make the
/// construct valid.
#[derive(Debug)]
pub enum ParseOutcome<T> {
    Done(String, T),
    Incomplete(Option<usize>),
    Failed(ErrorKind, usize),
}

} // verus!
