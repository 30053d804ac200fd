//! A peer-to-peer betting exchange book.
//!
//! Bettors take opposing positions on a binary-with-cancellation outcome.
//! Opposing wagers are matched against each other by decimal odds so that
//! every matched unit of payout is fully collateralized; a committee of
//! staked oracles reports the outcome with a stake-weighted vote; a
//! stake-backed dispute may override that consensus within a bounded
//! window; and settlement pays bettors, oracles and the market initiator
//! exact amounts once the outcome is final.

pub mod constants;
pub mod errors;
pub mod odds;
pub mod kv;
pub mod sums;
pub mod book;
pub mod matching;
pub mod ops;
pub mod settle;
pub mod laws;
