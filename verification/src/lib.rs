//! Read-only, deterministic interface to Volatilum liquidity infrastructure.
//!
//! The crate observes raw account bytes at a single ledger slot and returns
//! them unchanged, together with the slot they were read at.
//!
//! Non-goals:
//! - Wallet integration
//! - Transaction signing
//! - Fund movement
//! - Yield rates, APRs, or projections

pub mod accounts;
pub mod client;
pub mod liquidity;
pub mod risk;
pub mod state;
pub mod types;
pub mod yield_mechanics;
