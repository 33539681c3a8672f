//! Shared types: the slot counter and the closed error taxonomy.

use vstd::prelude::*;

verus! {

/// Ledger slot number: a monotonically progressing counter identifying a
/// consistent snapshot of account state.
pub type Slot = u64;

/// Strongly typed error codes for auditability.
///
/// The set is closed by design: callers may branch over it exhaustively, and a
/// new failure category requires an explicit new code rather than a catch-all.
#[derive(Debug, Clone, Copy, PartialEq, Eq)]
pub enum ErrorCode {
    /// Caller-supplied arguments violate a precondition.
    InvalidInput,
    /// The transport failed to communicate with the underlying ledger node.
    RpcError,
    /// The transport could not bind all requested accounts to one slot.
    RpcSlotInconsistency,
    /// A requested account identifier does not exist on the ledger.
    MissingAccount,
    /// Account bytes exist but violate a structural precondition required
    /// before layout decoding.
    MalformedAccountData,
    /// A decoded layout version is incompatible with the expected one.
    LayoutVersionMismatch,
}

/// A reported failure: a code from the closed taxonomy plus static
/// descriptive text. Constructed at the failure site and never mutated.
#[derive(Debug)]
pub struct Error {
    pub code: ErrorCode,
    pub message: &'static str,
}

impl Error {
    /// Builds an error value; no side effects, no translation of the code.
    pub fn new(code: ErrorCode, message: &'static str) -> (e: Error)
        ensures
            e.code == code,
            e.message == message,
    {
        Error { code, message }
    }
}

} // verus!
