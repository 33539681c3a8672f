//! State module: shared layout/version types used when decoding on-chain
//! configuration.

use vstd::prelude::*;

verus! {

/// Layout version for deterministic decoding.
///
/// A change of `major` denotes an incompatible layout; a change of `minor`
/// alone denotes an additive, backward-compatible one. Decoding collaborators
/// compare the on-chain version against the version they expect and must fail
/// with `LayoutVersionMismatch` on an incompatible major version.
#[derive(Debug, Clone, Copy, PartialEq, Eq)]
pub struct LayoutVersion {
    pub major: u16,
    pub minor: u16,
}

} // verus!
