//! The error taxonomy: every failure of a codec or validator is returned
//! as one of these typed results; nothing is swallowed or retried.

use vstd::prelude::*;

verus! {

/// Malformed textual input: the external grammar engine rejected the
/// text. Carries the engine's human-readable message.
#[derive(Debug)]
pub struct ParseError {
    pub message: String,
}

/// Malformed JSON text, with a description of the first offence.
#[derive(Debug)]
pub struct JsonError {
    pub message: String,
}

/// Malformed or truncated binary input. Deliberately carries no detail of
/// the binary format: every decode failure presents the same message.
#[derive(Debug)]
pub struct BinaryDecodeError {}

impl BinaryDecodeError {
    /// The fixed message shown for any invalid binary input.
    pub fn message(&self) -> (r: String)
        ensures
            r@ == "Received invalid binary data"@,
    {
        String::from_str("Received invalid binary data")
    }
}

/// A Value variant could not be represented in a target encoding. This is
/// an internal-invariant violation, not a user error; the binary encoder
/// proves it never returns one.
#[derive(Debug)]
pub struct EncodeError {}

/// Failure of sub-expression validation: either the wrapped text did not
/// parse at all, or it parsed to a node of the wrong grammatical
/// category.
#[derive(Debug)]
pub enum SubqueryError {
    /// The parenthesized text was rejected by the grammar engine.
    Parse(ParseError),
    /// The text parsed, but not to a sub-expression node.
    Mismatch,
}

} // verus!
