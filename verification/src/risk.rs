//! Risk module: types for volatility bounds and constraint surfaces.

use vstd::prelude::*;

verus! {

/// Kind of risk bound carried by an observed account.
#[derive(Debug, Clone, PartialEq, Eq)]
pub enum RiskBoundKind {
    Unknown,
}

} // verus!
