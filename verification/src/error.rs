//! Failure reasons reported while decoding untrusted inbound values.

use vstd::prelude::*;

verus! {

/// Why decoding failed. A malformed inbound value is rejected with the first
/// reason that applies, and no partially decoded result is ever produced.
#[derive(Clone, Copy, PartialEq, Eq, Structural, Debug)]
pub enum DecodeError {
    /// The top-level value is not a dictionary.
    NotADict,
    /// The dictionary has no byte-string entry under the type key.
    MissingType,
    /// No entry lies under the key named by the type tag.
    MissingPayload,
    /// The type tag is none of the three known tags.
    UnknownType,
    /// An error payload is not a two-element list of an integer and a byte
    /// string.
    BadErrorShape,
    /// A query or response payload is not a dictionary.
    BadBodyShape,
    /// A query or response body has no sender entry.
    MissingSender,
    /// The sender entry of a query or response body does not hold a valid
    /// compact node.
    InvalidNode,
    /// A compact node byte string does not have exactly 26 bytes.
    InvalidLength,
    /// The dictionary has no byte-string entry under the transaction-id key.
    MissingTransactionId,
}

} // verus!
