use betting::book::{book_init, AccountId, Bet, BetDirection, BetOutcome, BetType};
use betting::errors::BettingError;
use betting::ops::{book_bettor_opt_int, book_bettor_place_bet};

const BETTOR: AccountId = 7;

#[test]
fn test_state_book_new_bet() {
    let mut book = book_init(1, 2, BetType::One { handicap: 0 });
    book_bettor_opt_int(&mut book, BETTOR, 0).unwrap();

    book.new_bet(123, 123, BETTOR, BetDirection::For);

    assert_eq!(book.bets_count, 1);
    assert_eq!(book.wager_total, 123);
    assert_eq!(book.bets_for.len(), 1);
    assert_eq!(book.bets_for[0].odds(), 123);
    assert_eq!(book.bets_for[0].id, 528280977408);
    let p = &book.positions[0].1;
    assert_eq!(p.bets_count, 1);
    assert_eq!(p.wager, 123);
    assert_eq!(p.active_bets_count, 1);
}

#[test]
fn test_book_init_empty() {
    let book = book_init(9, 3, BetType::X { handicap: -1 });
    assert_eq!(book.game_id, 9);
    assert_eq!(book.initiator, 3);
    assert_eq!(book.bets_count, 0);
    assert_eq!(book.wager_total, 0);
    assert_eq!(book.payout_for_total, 0);
    assert_eq!(book.payout_against_total, 0);
    assert_eq!(book.dealt_wager, 0);
    assert_eq!(book.total_oracle_stake, 0);
    assert_eq!(book.total_dispute_stake, 0);
    assert!(book.dispute_resolution_result.is_none());
    assert!(book.aggregated_oracle_outcome.is_none());
    assert!(book.concluded_at.is_none());
    assert!(book.oracles.is_empty());
    assert!(book.bets_for.is_empty());
    assert!(book.bets_against.is_empty());
    assert!(book.positions.is_empty());
}

#[test]
fn test_current_space_formula() {
    let mut book = book_init(1, 2, BetType::One { handicap: 0 });
    assert_eq!(book.current_space(), 126);
    book_bettor_opt_int(&mut book, BETTOR, 0).unwrap();
    // one keyed position adds 80 bytes
    assert_eq!(book.current_space(), 126 + 80);
    book_bettor_place_bet(&mut book, BETTOR, 1500, 1_000_000, BetDirection::For).unwrap();
    // one queued bet adds 48 bytes
    assert_eq!(book.current_space(), 126 + 80 + 48);
}

#[test]
fn test_bet_id_orders_by_odds_then_sequence() {
    let mut book = book_init(1, 2, BetType::One { handicap: 0 });
    book_bettor_opt_int(&mut book, BETTOR, 0).unwrap();
    // placed out of price order; the queue sorts by odds, ties by arrival
    book_bettor_place_bet(&mut book, BETTOR, 2000, 1_000_000, BetDirection::For).unwrap();
    book_bettor_place_bet(&mut book, BETTOR, 1200, 1_000_000, BetDirection::For).unwrap();
    book_bettor_place_bet(&mut book, BETTOR, 1200, 2_000_000, BetDirection::For).unwrap();
    assert_eq!(book.bets_for.len(), 3);
    assert_eq!(book.bets_for[0].odds(), 1200);
    assert_eq!(book.bets_for[0].wager, 1_000_000);
    assert_eq!(book.bets_for[1].odds(), 1200);
    assert_eq!(book.bets_for[1].wager, 2_000_000);
    assert_eq!(book.bets_for[2].odds(), 2000);
    assert!(book.bets_for[0].id < book.bets_for[1].id);
    assert!(book.bets_for[1].id < book.bets_for[2].id);
}

#[test]
fn test_bet_payout_floors() {
    let bet = Bet { id: 1200u64 << 32, bettor: BETTOR, wager: 100_000_000 };
    assert_eq!(bet.odds(), 1200);
    assert_eq!(bet.payout(), 120_000_000);
    // 999 * 1.2 = 1198.8 floors to 1198
    assert_eq!(bet.get_payout_by_wager(999), 1198);
    // ceil(1000 * 1000 / 1200) = ceil(833.33) = 834
    assert_eq!(bet.get_wager_by_payout(1000), 834);
}

#[test]
fn test_place_bet_rejections() {
    let mut book = book_init(1, 2, BetType::One { handicap: 0 });
    let r = book_bettor_place_bet(&mut book, BETTOR, 1200, 1_000_000, BetDirection::For);
    assert_eq!(r, Err(BettingError::UserDidNotOptIn));
    book_bettor_opt_int(&mut book, BETTOR, 0).unwrap();
    let r = book_bettor_place_bet(&mut book, BETTOR, 1200, 9_999, BetDirection::For);
    assert_eq!(r, Err(BettingError::MinTokenAmountNotMet));
    let r = book_bettor_place_bet(&mut book, BETTOR, 1200, 10_000, BetDirection::For);
    assert_eq!(r, Ok(()));
    assert_eq!(book.wager_total, 10_000);
}

#[test]
fn test_opt_in_twice_is_rejected() {
    let mut book = book_init(1, 2, BetType::One { handicap: 0 });
    assert_eq!(book_bettor_opt_int(&mut book, BETTOR, 0), Ok(()));
    assert_eq!(
        book_bettor_opt_int(&mut book, BETTOR, 0),
        Err(BettingError::UserAlreadyOptIn)
    );
    assert_eq!(book.positions.len(), 1);
}

#[test]
fn test_outcome_values_are_distinct() {
    assert_ne!(BetOutcome::For, BetOutcome::Cancel);
    assert_ne!(BetOutcome::Cancel, BetOutcome::Against);
    assert_ne!(BetOutcome::For, BetOutcome::Against);
}
