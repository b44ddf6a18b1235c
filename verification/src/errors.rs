//! The error kinds reported by the tokenizer, the unescaper and the decoding
//! bridge.

use vstd::prelude::*;

verus! {

/// Everything that can go wrong while reading or decoding a document.
///
/// Every error is terminal for the call that reported it; nothing in this
/// crate skips malformed input or retries.
#[derive(Debug, Clone, Copy, PartialEq, Eq, Structural)]
pub enum Error {
    /// A construct is not terminated, an attribute is not of the form
    /// `key="value"`, or the input ends in the middle of a construct.
    MalformedMarkup,
    /// An end tag does not name the innermost open element.
    TagMismatch,
    /// A comment body holds `--` before its terminator.
    InvalidComment,
    /// An entity reference is unknown, unterminated, or names a code point
    /// that is not a Unicode scalar value.
    InvalidEscape,
    /// The bytes cannot be turned into text under the declared encoding.
    UnsupportedEncoding,
    /// The decoding bridge met an event that the requested value cannot be
    /// read from.
    UnexpectedEvent,
    /// A value was requested while no field name was pending.
    EndOfAttributes,
}

} // verus!
