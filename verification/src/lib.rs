//! Verified core of a renewable-energy-certificate protocol: token
//! registry, oracle attestation handler, order-book marketplace with
//! contracts-for-difference, and retirement registry.
//!
//! Each registry is a value whose abstract state (its view) the contracts
//! speak of; the ledger bindings keep that value in contract storage and do
//! the authorization, payments and cross-contract calls around it.

pub mod bytes;
pub mod crypto;
pub mod ids;
pub mod rec_token;
pub mod market_types;
pub mod order_book;
pub mod marketplace;
pub mod oracle;
pub mod retirement;
