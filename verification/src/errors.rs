//! Error taxonomy. Every error is terminal for the attempted operation:
//! a rejected operation leaves the book unchanged.

use vstd::prelude::*;

verus! {

#[derive(Clone, Copy, Debug, PartialEq, Eq, Structural)]
pub enum BettingError {
    /// Caller is not the required identity for this mutation.
    NoAuthority,
    /// Attempted outside the valid time window for this operation.
    NotInWindow,
    /// Referenced bet, oracle or position entry does not exist.
    NotFound,
    /// Registration already exists.
    UserAlreadyOptIn,
    /// Registration is missing.
    UserDidNotOptIn,
    /// Stake or wager is below the configured floor.
    MinTokenAmountNotMet,
    /// Bettor or oracle entries remain that must be settled first.
    BookNotSettled,
    /// Settlement was attempted before any outcome exists.
    NoResultYet,
}

} // verus!
