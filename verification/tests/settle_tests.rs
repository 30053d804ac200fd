use betting::book::{book_init, AccountId, BetDirection, BetOutcome, BetType, Book};
use betting::errors::BettingError;
use betting::ops::{
    book_bettor_dispute, book_bettor_opt_int, book_bettor_place_bet, book_match_bets,
    book_operator_resolve_dispute, book_oracle_opt_in, book_oracle_update_outcome,
};
use betting::settle::{book_bettor_settle, book_close, book_initiator_settle, book_oracle_settle};

const ALICE: AccountId = 11;
const BOB: AccountId = 22;
const ORA: AccountId = 31;
const INITIATOR: AccountId = 2;

/// A matched book: Alice holds 120M of `for` payout (100M dealt), Bob
/// holds 120M of `against` payout (20M dealt, 180M still queued), and
/// one oracle with a 100M stake concludes it at time 1000.
fn concluded_book(vote: BetOutcome) -> Book {
    let mut book = book_init(1, INITIATOR, BetType::One { handicap: 0 });
    book_bettor_opt_int(&mut book, ALICE, 0).unwrap();
    book_bettor_opt_int(&mut book, BOB, 0).unwrap();
    book_bettor_place_bet(&mut book, ALICE, 1200, 100_000_000, BetDirection::For).unwrap();
    book_bettor_place_bet(&mut book, BOB, 6000, 200_000_000, BetDirection::Against).unwrap();
    book_match_bets(&mut book, 0).unwrap();
    book_oracle_opt_in(&mut book, ORA, 100_000_000, 0).unwrap();
    book_oracle_update_outcome(&mut book, ORA, Some(vote), 1000).unwrap();
    book
}

#[test]
fn test_bettor_settle_winning_side() {
    let mut book = concluded_book(BetOutcome::For);
    // before the dispute window has elapsed, settlement is refused
    assert_eq!(
        book_bettor_settle(&mut book, ALICE, 2800),
        Err(BettingError::NotInWindow)
    );
    // 2801 > 1000 + 1800: the window has elapsed
    // Alice: 120M payout at the 99% rate, all of her wager dealt
    assert_eq!(book_bettor_settle(&mut book, ALICE, 2801), Ok(118_800_000));
    assert_eq!(book.positions.len(), 1);
    // Bob: against side lost; only the undealt 180M comes back
    assert_eq!(book_bettor_settle(&mut book, BOB, 2801), Ok(180_000_000));
    assert!(book.positions.is_empty());
    assert!(book.bets_against.is_empty());
    assert_eq!(
        book_bettor_settle(&mut book, BOB, 2801),
        Err(BettingError::NotFound)
    );
}

#[test]
fn test_bettor_settle_cancel_refunds_wager() {
    let mut book = concluded_book(BetOutcome::Cancel);
    assert_eq!(book_bettor_settle(&mut book, ALICE, 2801), Ok(100_000_000));
    assert_eq!(book_bettor_settle(&mut book, BOB, 2801), Ok(200_000_000));
}

#[test]
fn test_bettor_settle_needs_outcome() {
    let mut book = book_init(1, INITIATOR, BetType::One { handicap: 0 });
    book_bettor_opt_int(&mut book, ALICE, 0).unwrap();
    book_oracle_opt_in(&mut book, ORA, 100_000_000, 0).unwrap();
    // not concluded yet: settlement has no window to be in
    assert_eq!(
        book_bettor_settle(&mut book, ALICE, 500),
        Err(BettingError::NotInWindow)
    );
    // conclude, then leave a dispute unresolved: no outcome yet
    book_oracle_update_outcome(&mut book, ORA, Some(BetOutcome::For), 1000).unwrap();
    book_bettor_dispute(&mut book, ALICE, 10_000_000, 1700).unwrap();
    assert_eq!(
        book_bettor_settle(&mut book, ALICE, 2801),
        Err(BettingError::NoResultYet)
    );
}

#[test]
fn test_dispute_overturns_oracles() {
    // the dispute flips the outcome: the disputing bettor gets the
    // stake back on top of the against payout, and the oracle whose
    // vote matched the original consensus forfeits its stake
    let mut book = concluded_book(BetOutcome::For);
    book_bettor_dispute(&mut book, BOB, 10_000_000, 1700).unwrap();
    book_operator_resolve_dispute(&mut book, BetOutcome::Against, 2801).unwrap();
    // Alice backed `for`, which the resolution overturned: she receives
    // nothing but her dispute refund share (she staked none)
    assert_eq!(book_bettor_settle(&mut book, ALICE, 2801), Ok(0));
    // Bob: 120M against payout at 99%, 180M undealt, 10M dispute stake back
    assert_eq!(
        book_bettor_settle(&mut book, BOB, 2801),
        Ok(118_800_000 + 180_000_000 + 10_000_000)
    );
    // the oracle voted with the overturned consensus and forfeits
    assert_eq!(book_oracle_settle(&mut book, ORA, 2801), Ok(0));
    assert!(book.oracles.is_empty());
}

#[test]
fn test_dispute_window_and_floor() {
    let mut book = concluded_book(BetOutcome::For);
    assert_eq!(
        book_bettor_dispute(&mut book, BOB, 9_999_999, 1700),
        Err(BettingError::MinTokenAmountNotMet)
    );
    // the dispute sub-window opens only after oracle reporting closes
    assert_eq!(
        book_bettor_dispute(&mut book, BOB, 10_000_000, 1600),
        Err(BettingError::NotInWindow)
    );
    assert_eq!(
        book_bettor_dispute(&mut book, BOB, 10_000_000, 2800),
        Err(BettingError::NotInWindow)
    );
    assert_eq!(
        book_bettor_dispute(&mut book, 99, 10_000_000, 1700),
        Err(BettingError::UserDidNotOptIn)
    );
    assert_eq!(book_bettor_dispute(&mut book, BOB, 10_000_000, 1700), Ok(()));
    assert_eq!(book.total_dispute_stake, 10_000_000);
}

#[test]
fn test_resolve_dispute_preconditions() {
    let mut book = concluded_book(BetOutcome::For);
    // no dispute stake: the operator has no standing
    assert_eq!(
        book_operator_resolve_dispute(&mut book, BetOutcome::Against, 2801),
        Err(BettingError::NoAuthority)
    );
    book_bettor_dispute(&mut book, BOB, 10_000_000, 1700).unwrap();
    // the dispute window must fully elapse first
    assert_eq!(
        book_operator_resolve_dispute(&mut book, BetOutcome::Against, 2800),
        Err(BettingError::NotInWindow)
    );
    assert_eq!(
        book_operator_resolve_dispute(&mut book, BetOutcome::Against, 2801),
        Ok(())
    );
    assert_eq!(book.dispute_resolution_result, Some(BetOutcome::Against));
}

#[test]
fn test_oracle_settle_right_and_wrong() {
    let mut book = concluded_book(BetOutcome::For);
    // bettors must settle first
    assert_eq!(
        book_oracle_settle(&mut book, ORA, 2801),
        Err(BettingError::BookNotSettled)
    );
    book_bettor_settle(&mut book, ALICE, 2801).unwrap();
    book_bettor_settle(&mut book, BOB, 2801).unwrap();
    // profit pool: 1% of 120M dealt = 1.2M; oracles share 60% of it;
    // the only oracle holds the whole stake, so the whole 720k
    assert_eq!(
        book_oracle_settle(&mut book, ORA, 2801),
        Ok(100_000_000 + 720_000)
    );
    assert_eq!(
        book_oracle_settle(&mut book, ORA, 2801),
        Err(BettingError::NotFound)
    );
}

#[test]
fn test_initiator_settle_and_sweep() {
    let mut book = concluded_book(BetOutcome::For);
    assert_eq!(
        book_initiator_settle(&book, 99, 2801, 400_000_000),
        Err(BettingError::NoAuthority)
    );
    assert_eq!(
        book_initiator_settle(&book, INITIATOR, 2801, 400_000_000),
        Err(BettingError::BookNotSettled)
    );
    book_bettor_settle(&mut book, ALICE, 2801).unwrap();
    book_bettor_settle(&mut book, BOB, 2801).unwrap();
    book_oracle_settle(&mut book, ORA, 2801).unwrap();
    // collected: 300M wagers + 100M oracle stake; paid out so far:
    // 118.8M + 180M + 100.72M
    let balance = 400_000_000 - 118_800_000 - 180_000_000 - 100_720_000;
    // the initiator gets 20% of the 1.2M profit pool; the operator
    // sweeps the remainder
    let r = book_initiator_settle(&book, INITIATOR, 2801, balance).unwrap();
    assert_eq!(r.0, 240_000);
    assert_eq!(r.1, balance - 240_000);
    // every token collected leaves the book: nothing created, nothing
    // destroyed
    assert_eq!(
        118_800_000 + 180_000_000 + 100_720_000 + r.0 as u128 + r.1 as u128,
        400_000_000
    );
}

#[test]
fn test_book_close_when_empty() {
    let mut book = concluded_book(BetOutcome::For);
    assert_eq!(
        book_close(&book, INITIATOR, 0),
        Err(BettingError::BookNotSettled)
    );
    book_bettor_settle(&mut book, ALICE, 2801).unwrap();
    book_bettor_settle(&mut book, BOB, 2801).unwrap();
    book_oracle_settle(&mut book, ORA, 2801).unwrap();
    assert_eq!(book_close(&book, 99, 0), Err(BettingError::NoAuthority));
    assert_eq!(
        book_close(&book, INITIATOR, 1),
        Err(BettingError::BookNotSettled)
    );
    assert_eq!(book_close(&book, INITIATOR, 0), Ok(()));
}
