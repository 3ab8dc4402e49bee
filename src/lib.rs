//! A recurring, batched token-conversion scheduler.
//!
//! Participants keep a ledger record with a deposit and a fixed amount to
//! convert every cycle. An operator run selects the eligible participants,
//! pools their amounts, converts the pooled amount through an outside
//! exchange in two confirmed stages, and only then credits each participant
//! with a pro-rata share of the proceeds.
pub mod arith;
pub mod ledger;
pub mod message;
pub mod selector;
pub mod settlement;
pub mod contract;
pub mod laws;
