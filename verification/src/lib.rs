//! A replay engine for a log of financial transaction events.
//!
//! The library applies an ordered sequence of deposit, withdrawal, dispute,
//! resolve and chargeback events to per-client accounts and produces a final
//! balance snapshot per client.  Balances are exact fixed-point decimals;
//! every state transition is specified against a mathematical account model
//! and verified.

pub mod amount;
pub mod engine;
pub mod ledger;
