//! Liquidity module: types for topology and exposure.
//!
//! Non-financial: this crate does not compute PnL, returns, or projections.

use vstd::prelude::*;

verus! {

/// Kind of liquidity exposure carried by an observed account.
#[derive(Debug, Clone, PartialEq, Eq)]
pub enum ExposureKind {
    Unknown,
}

} // verus!
