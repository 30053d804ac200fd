//! Configured amounts, windows and fee rates of the exchange.

use vstd::prelude::*;

verus! {

/// One whole token in base units.
pub const TOKEN_UNIT: u64 = 1000000;

/// Smallest wager a bettor may place.
pub const MIN_BET_AMOUNT: u64 = 1000000 / 100;

/// Smallest stake with which an oracle may opt in.
pub const MIN_ORACLE_STAKE: u64 = 1000000;

/// Smallest stake with which a bettor may back a dispute.
pub const MIN_BETTOR_DISPUTE_STAKE: u64 = 1000000 * 10;

/// Seconds after conclusion during which oracle and bettor activity
/// (votes, stakes, cancellations, new positions, matching) may continue.
pub const ORACLE_UPDATE_WINDOW: i64 = 60 * 10;

/// Seconds after conclusion during which a dispute may be filed; settlement
/// only starts once this window has fully elapsed.
pub const BETTOR_DISPUTE_WINDOW: i64 = 60 * 10 + 60 * 20;

/// Basis points of matched winnings paid out to bettors; the rest is the
/// book's profit pool.
pub const BETTOR_PAYOUT_RATE: u64 = 9900;

/// Basis points of the profit pool shared among correct oracles.
pub const ORACLES_REWARD_SHARE: u64 = 6000;

/// Basis points of the profit pool paid to the market initiator.
pub const INITIATOR_REWARD_SHARE: u64 = 2000;

/// Denominator of all basis-point rates above.
pub const RATE_SCALE: u64 = 10000;

/// Fixed-point scale of decimal odds: an odds value of 1200 is a payout
/// multiplier of 1.200.
pub const ODDS_UNIT: u64 = 1000;

} // verus!
