use betting::book::{book_init, AccountId, BetDirection, BetType, Book};
use betting::errors::BettingError;
use betting::ops::{book_bettor_opt_int, book_bettor_place_bet, book_match_bets};

const ALICE: AccountId = 11;
const BOB: AccountId = 22;

fn open_book() -> Book {
    let mut book = book_init(1, 2, BetType::One { handicap: 0 });
    book_bettor_opt_int(&mut book, ALICE, 0).unwrap();
    book_bettor_opt_int(&mut book, BOB, 0).unwrap();
    book
}

#[test]
fn test_unmatched_bet_stays_queued() {
    // a lone bet with no opposing liquidity is never filled
    let mut book = open_book();
    book_bettor_place_bet(&mut book, ALICE, 1200, 20_000_000, BetDirection::For).unwrap();
    book_match_bets(&mut book, 0).unwrap();
    assert_eq!(book.payout_for_total, 0);
    assert_eq!(book.payout_against_total, 0);
    assert_eq!(book.dealt_wager, 0);
    assert_eq!(book.bets_for.len(), 1);
    assert_eq!(book.bets_for[0].wager, 20_000_000);
}

#[test]
fn test_matching_at_complementary_prices() {
    // for at 1.2 against at 6.0: 1/(6-1)+1 = 1.2, the prices just cross
    let mut book = open_book();
    book_bettor_place_bet(&mut book, ALICE, 1200, 100_000_000, BetDirection::For).unwrap();
    book_bettor_place_bet(&mut book, BOB, 6000, 200_000_000, BetDirection::Against).unwrap();
    book_match_bets(&mut book, 0).unwrap();
    // the for bet's whole 120M payout is funded: 100M of its own wager
    // plus 20M drawn from the against bet, which earns 20M * 6 = 120M
    assert_eq!(book.payout_for_total, 120_000_000);
    assert_eq!(book.payout_against_total, 120_000_000);
    assert_eq!(book.dealt_wager, 120_000_000);
    assert!(book.bets_for.is_empty());
    assert_eq!(book.bets_against.len(), 1);
    assert_eq!(book.bets_against[0].wager, 180_000_000);
    // positions carry the same amounts
    let a = book.positions.iter().find(|e| e.0 == ALICE).unwrap().1;
    assert_eq!(a.payout_for, 120_000_000);
    assert_eq!(a.dealt_wager, 100_000_000);
    assert_eq!(a.active_bets_count, 0);
    let b = book.positions.iter().find(|e| e.0 == BOB).unwrap().1;
    assert_eq!(b.payout_against, 120_000_000);
    assert_eq!(b.dealt_wager, 20_000_000);
    assert_eq!(b.active_bets_count, 1);
}

#[test]
fn test_incompatible_prices_do_not_match() {
    // for at 1.3 asks more than the against side's 1.2 complement
    let mut book = open_book();
    book_bettor_place_bet(&mut book, ALICE, 1300, 10_000_000, BetDirection::For).unwrap();
    book_bettor_place_bet(&mut book, BOB, 6000, 10_000_000, BetDirection::Against).unwrap();
    book_match_bets(&mut book, 0).unwrap();
    assert_eq!(book.dealt_wager, 0);
    assert_eq!(book.bets_for.len(), 1);
    assert_eq!(book.bets_against.len(), 1);
}

#[test]
fn test_backstop_absorbs_shortfall() {
    // a cheap for bet against an expensive against bet leaves the for
    // side over-exposed; the next against bet absorbs the shortfall at
    // its own price
    let mut book = open_book();
    book_bettor_place_bet(&mut book, ALICE, 1100, 100_000_000, BetDirection::For).unwrap();
    book_bettor_place_bet(&mut book, BOB, 6000, 100_000_000, BetDirection::Against).unwrap();
    book_match_bets(&mut book, 0).unwrap();
    // first step: for payout 110M, 10M drawn from the against bet
    // earning 60M; second step: the against head absorbs the remaining
    // 50M shortfall, giving up ceil(50M/6) of wager
    assert_eq!(book.payout_for_total, 110_000_000);
    assert_eq!(book.payout_against_total, 110_000_000);
    assert_eq!(book.dealt_wager, 100_000_000 + 10_000_000 + 8_333_334);
    assert!(book.bets_for.is_empty());
    assert_eq!(book.bets_against.len(), 1);
    assert_eq!(book.bets_against[0].wager, 100_000_000 - 10_000_000 - 8_333_334);
}

#[test]
fn test_no_zero_wager_bet_survives_matching() {
    // exact fill: both heads are consumed entirely and removed
    let mut book = open_book();
    book_bettor_place_bet(&mut book, ALICE, 2000, 10_000_000, BetDirection::For).unwrap();
    book_bettor_place_bet(&mut book, BOB, 2000, 10_000_000, BetDirection::Against).unwrap();
    book_match_bets(&mut book, 0).unwrap();
    assert_eq!(book.payout_for_total, 20_000_000);
    assert_eq!(book.payout_against_total, 20_000_000);
    assert_eq!(book.dealt_wager, 20_000_000);
    assert!(book.bets_for.is_empty());
    assert!(book.bets_against.is_empty());
    for bet in book.bets_for.iter().chain(book.bets_against.iter()) {
        assert!(bet.wager > 0);
    }
}

#[test]
fn test_match_one_step_reports_progress() {
    let mut book = open_book();
    book_bettor_place_bet(&mut book, ALICE, 1200, 100_000_000, BetDirection::For).unwrap();
    book_bettor_place_bet(&mut book, BOB, 6000, 200_000_000, BetDirection::Against).unwrap();
    assert!(book.match_bets());
    assert!(!book.match_bets());
}

#[test]
fn test_conservation_through_matching() {
    let mut book = open_book();
    book_bettor_place_bet(&mut book, ALICE, 1500, 30_000_000, BetDirection::For).unwrap();
    book_bettor_place_bet(&mut book, ALICE, 1250, 50_000_000, BetDirection::For).unwrap();
    book_bettor_place_bet(&mut book, BOB, 4000, 70_000_000, BetDirection::Against).unwrap();
    book_bettor_place_bet(&mut book, BOB, 5000, 40_000_000, BetDirection::Against).unwrap();
    book_match_bets(&mut book, 0).unwrap();
    assert!(book.payout_for_total <= book.dealt_wager);
    assert!(book.payout_against_total <= book.dealt_wager);
    assert!(book.dealt_wager <= book.wager_total);
    assert_eq!(book.wager_total, 190_000_000);
}

#[test]
fn test_match_after_window_rejected() {
    let mut book = open_book();
    book_bettor_place_bet(&mut book, ALICE, 1200, 10_000_000, BetDirection::For).unwrap();
    book.aggregated_oracle_outcome = Some(betting::book::BetOutcome::For);
    book.concluded_at = Some(1000);
    // within the oracle-update window matching still runs
    assert_eq!(book_match_bets(&mut book, 1500), Ok(()));
    // after it, the book is closed to matching
    assert_eq!(book_match_bets(&mut book, 1600), Err(BettingError::NotInWindow));
}

#[test]
fn test_repeated_matching_consumes_both_sides() {
    // two for bets at 1.2 against one large bet at 6.0: repeated
    // matching consumes every for bet and all but a remainder of the
    // against bet, locking 240M of payout on each side
    let mut book = open_book();
    book_bettor_place_bet(&mut book, ALICE, 1200, 100_000_000, BetDirection::For).unwrap();
    book_bettor_place_bet(&mut book, ALICE, 1200, 100_000_000, BetDirection::For).unwrap();
    book_bettor_place_bet(&mut book, BOB, 6000, 200_000_000, BetDirection::Against).unwrap();
    book_match_bets(&mut book, 0).unwrap();
    assert_eq!(book.payout_for_total, 240_000_000);
    assert_eq!(book.payout_against_total, 240_000_000);
    assert_eq!(book.dealt_wager, 240_000_000);
    assert!(book.bets_for.is_empty());
    assert_eq!(book.bets_against.len(), 1);
    assert_eq!(book.bets_against[0].wager, 160_000_000);
    let a = book.positions.iter().find(|e| e.0 == ALICE).unwrap().1;
    assert_eq!(a.payout_for, 240_000_000);
    assert_eq!(a.dealt_wager, 200_000_000);
    assert_eq!(a.active_bets_count, 0);
    assert_eq!(a.bets_count, 2);
    let b = book.positions.iter().find(|e| e.0 == BOB).unwrap().1;
    assert_eq!(b.payout_against, 240_000_000);
    assert_eq!(b.dealt_wager, 40_000_000);
    assert_eq!(b.active_bets_count, 1);
}
