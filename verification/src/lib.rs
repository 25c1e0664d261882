//! Reward vault engine for a decentralized storage network.
//!
//! Storage nodes collect signed receipts of service and periodically receive
//! token rewards through sealed custody vaults that open only once a time
//! release condition is met.  This crate holds the verified core of that
//! pipeline: receipt verification and persistence, fixed-point reward
//! accounting, vault lifecycle bookkeeping, and the decision logic of the
//! distribution scheduler.

pub mod errors;
pub mod ratio;
pub mod codec;
pub mod order;
pub mod metrics;
pub mod crypto;
pub mod receipt;
pub mod schedule;
pub mod rewards;
pub mod vault;
pub mod content;
pub mod queue;
pub mod manager;
pub mod config;
