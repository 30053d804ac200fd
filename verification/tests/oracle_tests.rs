use betting::book::{book_init, AccountId, BetOutcome, BetType, Book};
use betting::errors::BettingError;
use betting::ops::{
    book_bettor_cancel_bet, book_bettor_opt_int, book_bettor_place_bet, book_oracle_add_stake,
    book_oracle_opt_in, book_oracle_update_outcome,
};
use betting::book::BetDirection;

const ALICE: AccountId = 11;
const ORA: AccountId = 31;
const ORB: AccountId = 32;

fn open_book() -> Book {
    book_init(1, 2, BetType::Two { handicap: 1 })
}

#[test]
fn test_oracle_opt_in_enforces_minimum_stake() {
    let mut book = open_book();
    assert_eq!(
        book_oracle_opt_in(&mut book, ORA, 999_999, 0),
        Err(BettingError::MinTokenAmountNotMet)
    );
    assert_eq!(book_oracle_opt_in(&mut book, ORA, 1_000_000, 0), Ok(()));
    assert_eq!(book.total_oracle_stake, 1_000_000);
    assert_eq!(
        book_oracle_opt_in(&mut book, ORA, 1_000_000, 0),
        Err(BettingError::UserAlreadyOptIn)
    );
}

#[test]
fn test_oracle_add_stake() {
    let mut book = open_book();
    assert_eq!(
        book_oracle_add_stake(&mut book, ORA, 500, 0),
        Err(BettingError::UserDidNotOptIn)
    );
    book_oracle_opt_in(&mut book, ORA, 1_000_000, 0).unwrap();
    // no floor is re-checked on top-ups
    assert_eq!(book_oracle_add_stake(&mut book, ORA, 500, 0), Ok(()));
    assert_eq!(book.total_oracle_stake, 1_000_500);
    assert_eq!(book.oracles[0].1.stake, 1_000_500);
}

#[test]
fn test_consensus_follows_the_heavier_stake() {
    // stakes 100 and 40 (in whole tokens), opposite outcomes: the
    // heavier oracle's vote is the consensus
    let mut book = open_book();
    book_oracle_opt_in(&mut book, ORA, 100_000_000, 0).unwrap();
    book_oracle_opt_in(&mut book, ORB, 40_000_000, 0).unwrap();
    book_oracle_update_outcome(&mut book, ORB, Some(BetOutcome::Against), 10).unwrap();
    // the unvoted 100-stake group still outweighs the 40-stake vote
    assert_eq!(book.aggregated_oracle_outcome, None);
    book_oracle_update_outcome(&mut book, ORA, Some(BetOutcome::For), 20).unwrap();
    assert_eq!(book.aggregated_oracle_outcome, Some(BetOutcome::For));
    assert_eq!(book.concluded_at, Some(20));
}

#[test]
fn test_consensus_tie_breaks_by_vote_order() {
    // an exact stake tie is won by the vote latest in the fixed order
    let mut book = open_book();
    book_oracle_opt_in(&mut book, ORA, 1_000_000, 0).unwrap();
    book_oracle_opt_in(&mut book, ORB, 1_000_000, 0).unwrap();
    book_oracle_update_outcome(&mut book, ORA, Some(BetOutcome::For), 10).unwrap();
    book_oracle_update_outcome(&mut book, ORB, Some(BetOutcome::Against), 20).unwrap();
    assert_eq!(book.aggregated_oracle_outcome, Some(BetOutcome::Against));
}

#[test]
fn test_unvoted_stake_keeps_market_open() {
    // the unvoted group outweighs the only vote, so there is no
    // consensus and the market stays open
    let mut book = open_book();
    book_oracle_opt_in(&mut book, ORA, 1_000_000, 0).unwrap();
    book_oracle_opt_in(&mut book, ORB, 2_000_000, 0).unwrap();
    book_oracle_update_outcome(&mut book, ORA, Some(BetOutcome::For), 10).unwrap();
    assert_eq!(book.aggregated_oracle_outcome, None);
    assert_eq!(book.concluded_at, None);
}

#[test]
fn test_vote_retraction_reopens_market() {
    let mut book = open_book();
    book_oracle_opt_in(&mut book, ORA, 1_000_000, 0).unwrap();
    book_oracle_update_outcome(&mut book, ORA, Some(BetOutcome::Cancel), 10).unwrap();
    assert_eq!(book.concluded_at, Some(10));
    // retracting the vote dissolves the consensus within the window
    book_oracle_update_outcome(&mut book, ORA, None, 200).unwrap();
    assert_eq!(book.aggregated_oracle_outcome, None);
    assert_eq!(book.concluded_at, None);
}

#[test]
fn test_oracle_activity_closes_after_window() {
    let mut book = open_book();
    book_oracle_opt_in(&mut book, ORA, 1_000_000, 0).unwrap();
    book_oracle_update_outcome(&mut book, ORA, Some(BetOutcome::For), 1000).unwrap();
    // within the window every oracle mutation still runs
    assert_eq!(book_oracle_add_stake(&mut book, ORA, 1, 1599), Ok(()));
    // once the window has elapsed they are all rejected
    assert_eq!(
        book_oracle_add_stake(&mut book, ORA, 1, 1600),
        Err(BettingError::NotInWindow)
    );
    assert_eq!(
        book_oracle_update_outcome(&mut book, ORA, None, 1600),
        Err(BettingError::NotInWindow)
    );
    assert_eq!(
        book_oracle_opt_in(&mut book, ORB, 1_000_000, 1600),
        Err(BettingError::NotInWindow)
    );
}

#[test]
fn test_cancel_within_update_window_only() {
    // a cancellation still succeeds after conclusion but within the
    // oracle-update window; after the window it is rejected
    let mut book = open_book();
    book_bettor_opt_int(&mut book, ALICE, 0).unwrap();
    book_bettor_place_bet(&mut book, ALICE, 1200, 10_000_000, BetDirection::For).unwrap();
    book_bettor_place_bet(&mut book, ALICE, 1300, 20_000_000, BetDirection::For).unwrap();
    book_oracle_opt_in(&mut book, ORA, 1_000_000, 0).unwrap();
    book_oracle_update_outcome(&mut book, ORA, Some(BetOutcome::For), 1000).unwrap();
    let first_id = book.bets_for[0].id;
    let second_id = book.bets_for[1].id;
    let r = book_bettor_cancel_bet(&mut book, ALICE, first_id, BetDirection::For, 1300);
    assert_eq!(r, Ok(10_000_000));
    assert_eq!(book.wager_total, 20_000_000);
    let r = book_bettor_cancel_bet(&mut book, ALICE, second_id, BetDirection::For, 1600);
    assert_eq!(r, Err(BettingError::NotInWindow));
    assert_eq!(book.bets_for.len(), 1);
}

#[test]
fn test_cancel_rejections() {
    let mut book = open_book();
    book_bettor_opt_int(&mut book, ALICE, 0).unwrap();
    book_bettor_place_bet(&mut book, ALICE, 1200, 10_000_000, BetDirection::For).unwrap();
    let id = book.bets_for[0].id;
    assert_eq!(
        book_bettor_cancel_bet(&mut book, ALICE, id + 1, BetDirection::For, 0),
        Err(BettingError::NotFound)
    );
    assert_eq!(
        book_bettor_cancel_bet(&mut book, ALICE, id, BetDirection::Against, 0),
        Err(BettingError::NotFound)
    );
    assert_eq!(
        book_bettor_cancel_bet(&mut book, 99, id, BetDirection::For, 0),
        Err(BettingError::NoAuthority)
    );
    assert_eq!(book.bets_for.len(), 1);
    assert_eq!(
        book_bettor_cancel_bet(&mut book, ALICE, id, BetDirection::For, 0),
        Ok(10_000_000)
    );
    assert!(book.bets_for.is_empty());
    assert_eq!(book.positions[0].1.active_bets_count, 0);
}

#[test]
fn test_place_bet_rejected_after_conclusion() {
    let mut book = open_book();
    book_bettor_opt_int(&mut book, ALICE, 0).unwrap();
    book_oracle_opt_in(&mut book, ORA, 1_000_000, 0).unwrap();
    assert_eq!(
        book_bettor_place_bet(&mut book, ALICE, 1200, 10_000_000, BetDirection::For),
        Ok(())
    );
    book_oracle_update_outcome(&mut book, ORA, Some(BetOutcome::For), 1000).unwrap();
    // betting after conclusion is rejected outright, even within the
    // grace window in which oracle activity may still continue
    assert_eq!(
        book_bettor_place_bet(&mut book, ALICE, 1200, 10_000_000, BetDirection::For),
        Err(BettingError::NotInWindow)
    );
    // a vote retraction dissolves the consensus and reopens betting
    book_oracle_update_outcome(&mut book, ORA, None, 1100).unwrap();
    assert_eq!(
        book_bettor_place_bet(&mut book, ALICE, 1200, 10_000_000, BetDirection::For),
        Ok(())
    );
}
