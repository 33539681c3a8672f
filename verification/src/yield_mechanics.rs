//! Yield-mechanics module: structural yield representation.
//!
//! Non-financial: no yield rates, APRs, or projections are produced.

use vstd::prelude::*;

verus! {

/// Kind of yield mechanics described by an observed account.
#[derive(Debug, Clone, PartialEq, Eq)]
pub enum YieldMechanicsKind {
    Unknown,
}

} // verus!
