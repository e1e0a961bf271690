use vstd::prelude::*;

verus! {

/// Errors surfaced by the ledger, the index, the transaction engine and the
/// message codec.
#[derive(Debug, Clone, PartialEq, Eq, Structural)]
pub enum Error {
    /// A tip, block, transaction or previous transaction was not found.
    NotFound,
    /// The spendable total was below the requested amount; carries the
    /// balance that was accumulated.
    InsufficientFunds(i64),
    /// A persisted or wire payload could not be decoded.
    Serialization,
    /// A message carried an unrecognized command tag.
    UnknownCommand,
    /// A structural check failed: a referenced output was missing or out of
    /// range, or an appended block did not extend the tip.
    Validation,
    /// A count or sum left the range of its machine integer type.
    Overflow,
}

} // verus!
