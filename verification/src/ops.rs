//! The book's operations, one per platform instruction: opt-ins, bet
//! placement and cancellation, the matching driver, oracle staking and
//! voting, and disputes. Every operation validates first and mutates
//! only on success: a rejected call leaves the book unchanged.

use vstd::prelude::*;
use crate::book::{
    AccountId, Bet, BetDirection, BetOutcome, Book, Oracle, Position, bettor_count,
    bettor_wager_sum, bet_count_fn, bet_of_fn, bet_wager_fn, consensus_of, dispute_state_eq,
    entry_fn, identity_eq, lemma_position_bounds, lemma_queue_id_idx_unique,
    lemma_queue_remove_at, matching_state_eq, new_bet_rel, oracle_state_eq, oracle_stake_fn,
    pos_dealt_fn, pos_dispute_fn, pos_payout_against_fn, pos_payout_for_fn, pos_wager_fn,
    position_wf, queue_has_id, queue_id_idx, queue_wager_sum,
};
use crate::constants::{
    BETTOR_DISPUTE_WINDOW, MIN_BETTOR_DISPUTE_STAKE, MIN_BET_AMOUNT, MIN_ORACLE_STAKE,
    ORACLE_UPDATE_WINDOW,
};
use crate::book::outcome_eq;
use crate::errors::BettingError;
use crate::kv::{kv_find, kv_get, kv_has, kv_idx, lemma_kv_idx_unique, lemma_kv_push, lemma_kv_update};
use crate::matching::{lemma_match_steps_extend, match_can_progress, match_measure, match_step, match_steps};

verus! {

/// While the market is unconcluded, and for a grace window after
/// conclusion (within which consensus may still flip), bettor and
/// oracle activity stays open.
pub open spec fn oracle_window_open(b: Book, now: i64) -> bool {
    b.concluded_at.is_none() || b.concluded_at.unwrap() + ORACLE_UPDATE_WINDOW > now
}

/// The sub-window in which a dispute may be filed: after oracle
/// reporting closes and before the dispute window elapses.
pub open spec fn dispute_window_open(b: Book, now: i64) -> bool {
    &&& b.concluded_at.is_some()
    &&& b.concluded_at.unwrap() + ORACLE_UPDATE_WINDOW < now
    &&& now < b.concluded_at.unwrap() + BETTOR_DISPUTE_WINDOW
}

/// Executable form of `oracle_window_open`.
fn window_open(b: &Book, now: i64) -> (r: bool)
    requires
        b.wf(),
    ensures
        r == oracle_window_open(*b, now),
{
    match b.concluded_at {
        None => true,
        Some(t) => t + ORACLE_UPDATE_WINDOW > now,
    }
}

/// What opting in as a bettor decides.
pub open spec fn bettor_opt_in_check(b: Book, bettor: AccountId, now: i64) -> Result<
    (),
    BettingError,
> {
    if !oracle_window_open(b, now) {
        Err(BettingError::NotInWindow)
    } else if kv_has(b.positions@, bettor) {
        Err(BettingError::UserAlreadyOptIn)
    } else {
        Ok(())
    }
}

/// Open a zeroed position for a new bettor, while the market is open to
/// bettor activity.
pub fn book_bettor_opt_int(book: &mut Book, bettor: AccountId, now: i64) -> (r: Result<
    (),
    BettingError,
>)
    requires
        old(book).wf(),
    ensures
        final(book).wf(),
        r == bettor_opt_in_check(*old(book), bettor, now),
        crate::book::fully_accounted(*old(book)) ==> crate::book::fully_accounted(*final(book)),
        r.is_err() ==> *final(book) == *old(book),
        r.is_ok() ==> final(book).positions@ == old(book).positions@.push(
            (
                bettor,
                Position {
                    active_bets_count: 0,
                    bets_count: 0,
                    payout_for: 0,
                    payout_against: 0,
                    wager: 0,
                    dealt_wager: 0,
                    dispute_stake: 0,
                },
            ),
        ) && final(book).bets_for@ == old(book).bets_for@ && final(book).bets_against@ == old(book).bets_against@ && final(book).bets_count == old(book).bets_count && final(book).wager_total == old(book).wager_total && final(book).payout_for_total == old(book).payout_for_total && final(book).payout_against_total == old(book).payout_against_total
            && final(book).dealt_wager == old(book).dealt_wager && identity_eq(
            *old(book),
            *final(book),
        ) && oracle_state_eq(*old(book), *final(book)) && dispute_state_eq(
            *old(book),
            *final(book),
        ),
{
    if !window_open(book, now) {
        return Err(BettingError::NotInWindow);
    }
    if let Some(_) = kv_find(&book.positions, bettor) {
        return Err(BettingError::UserAlreadyOptIn);
    }
    let ghost pre = *book;
    let p = Position {
        active_bets_count: 0,
        bets_count: 0,
        payout_for: 0,
        payout_against: 0,
        wager: 0,
        dealt_wager: 0,
        dispute_stake: 0,
    };
    book.positions.push((bettor, p));
    proof {
        lemma_kv_push(pre.positions@, bettor, p);
        crate::sums::lemma_map_sum_push(pre.positions@, (bettor, p), entry_fn(pos_wager_fn()));
        crate::sums::lemma_map_sum_push(pre.positions@, (bettor, p), entry_fn(pos_dealt_fn()));
        crate::sums::lemma_map_sum_push(pre.positions@, (bettor, p), entry_fn(pos_payout_for_fn()));
        crate::sums::lemma_map_sum_push(
            pre.positions@,
            (bettor, p),
            entry_fn(pos_payout_against_fn()),
        );
        crate::sums::lemma_map_sum_push(pre.positions@, (bettor, p), entry_fn(pos_dispute_fn()));
        let post = *book;
        assert forall|j: int|
            0 <= j < post.bets_for@.len() implies kv_has(
            post.positions@,
            (#[trigger] post.bets_for@[j]).bettor,
        ) by {
            assert(kv_has(pre.positions@, pre.bets_for@[j].bettor));
        }
        assert forall|j: int|
            0 <= j < post.bets_against@.len() implies kv_has(
            post.positions@,
            (#[trigger] post.bets_against@[j]).bettor,
        ) by {
            assert(kv_has(pre.positions@, pre.bets_against@[j].bettor));
        }
        assert(bettor_count(post.bets_for@, bettor) == 0) by {
            assert(forall|j: int|
                0 <= j < post.bets_for@.len() ==> bet_count_fn(bettor)(
                    #[trigger] post.bets_for@[j],
                ) == 0);
            crate::sums::lemma_map_sum_zero(post.bets_for@, bet_count_fn(bettor));
        }
        assert(bettor_count(post.bets_against@, bettor) == 0) by {
            assert(forall|j: int|
                0 <= j < post.bets_against@.len() ==> bet_count_fn(bettor)(
                    #[trigger] post.bets_against@[j],
                ) == 0);
            crate::sums::lemma_map_sum_zero(post.bets_against@, bet_count_fn(bettor));
        }
        assert(bettor_wager_sum(post.bets_for@, bettor) == 0) by {
            assert(forall|j: int|
                0 <= j < post.bets_for@.len() ==> bet_of_fn(bettor)(
                    #[trigger] post.bets_for@[j],
                ) == 0);
            crate::sums::lemma_map_sum_zero(post.bets_for@, bet_of_fn(bettor));
        }
        assert(bettor_wager_sum(post.bets_against@, bettor) == 0) by {
            assert(forall|j: int|
                0 <= j < post.bets_against@.len() ==> bet_of_fn(bettor)(
                    #[trigger] post.bets_against@[j],
                ) == 0);
            crate::sums::lemma_map_sum_zero(post.bets_against@, bet_of_fn(bettor));
        }
        assert forall|j: int|
            0 <= j < post.positions@.len() implies position_wf(
            (#[trigger] post.positions@[j]).1,
            post.positions@[j].0,
            post,
        ) by {
            if j < pre.positions@.len() {
                assert(post.positions@[j] == pre.positions@[j]);
                assert(position_wf(pre.positions@[j].1, pre.positions@[j].0, pre));
            } else {
                assert(post.positions@[j] == (bettor, p));
            }
        }
    }
    Ok(())
}

/// What placing a bet decides. New wagers are accepted only while the
/// market is unconcluded: the moment a consensus sets `concluded_at`,
/// betting after conclusion is rejected outright.
pub open spec fn place_bet_check(
    b: Book,
    bettor: AccountId,
    wager: u64,
) -> Result<(), BettingError> {
    if b.concluded_at.is_some() {
        Err(BettingError::NotInWindow)
    } else if !kv_has(b.positions@, bettor) {
        Err(BettingError::UserDidNotOptIn)
    } else if wager < MIN_BET_AMOUNT {
        Err(BettingError::MinTokenAmountNotMet)
    } else {
        Ok(())
    }
}

/// Place a wager: validate the market still open, the bettor and the
/// floor, then queue the bet and charge the position.
pub fn book_bettor_place_bet(
    book: &mut Book,
    bettor: AccountId,
    odds: u32,
    wager: u64,
    bet_direction: BetDirection,
) -> (r: Result<(), BettingError>)
    requires
        old(book).wf(),
        old(book).bets_count < u32::MAX,
        old(book).wager_total + wager <= u64::MAX,
    ensures
        final(book).wf(),
        r == place_bet_check(*old(book), bettor, wager),
        crate::book::fully_accounted(*old(book)) ==> crate::book::fully_accounted(*final(book)),
        r.is_err() ==> *final(book) == *old(book),
        r.is_ok() ==> new_bet_rel(*old(book), *final(book), odds, wager, bettor, bet_direction),
{
    if book.concluded_at.is_some() {
        return Err(BettingError::NotInWindow);
    }
    if let None = kv_find(&book.positions, bettor) {
        return Err(BettingError::UserDidNotOptIn);
    }
    if wager < MIN_BET_AMOUNT {
        return Err(BettingError::MinTokenAmountNotMet);
    }
    book.new_bet(odds, wager, bettor, bet_direction);
    Ok(())
}

/// What cancelling a bet decides: the refund owed to the bettor, or the
/// reason the cancellation is refused.
pub open spec fn cancel_bet_check(
    b: Book,
    bettor: AccountId,
    bet_id: u64,
    bet_direction: BetDirection,
    now: i64,
) -> Result<u64, BettingError> {
    let q = match bet_direction {
        BetDirection::For => b.bets_for@,
        BetDirection::Against => b.bets_against@,
    };
    if !oracle_window_open(b, now) {
        Err(BettingError::NotInWindow)
    } else if !queue_has_id(q, bet_id) {
        Err(BettingError::NotFound)
    } else if q[queue_id_idx(q, bet_id)].bettor != bettor {
        Err(BettingError::NoAuthority)
    } else {
        Ok(q[queue_id_idx(q, bet_id)].wager)
    }
}

/// Cancel an open bet: remove it from its queue and release its wager
/// back to the bettor. The refunded amount is returned; the caller
/// moves the funds.
pub fn book_bettor_cancel_bet(
    book: &mut Book,
    bettor: AccountId,
    bet_id: u64,
    bet_direction: BetDirection,
    now: i64,
) -> (r: Result<u64, BettingError>)
    requires
        old(book).wf(),
    ensures
        final(book).wf(),
        r == cancel_bet_check(*old(book), bettor, bet_id, bet_direction, now),
        crate::book::fully_accounted(*old(book)) ==> crate::book::fully_accounted(*final(book)),
        r.is_err() ==> *final(book) == *old(book),
        r.is_ok() ==> ({
            let q = match bet_direction {
                BetDirection::For => old(book).bets_for@,
                BetDirection::Against => old(book).bets_against@,
            };
            let i = queue_id_idx(q, bet_id);
            let w = q[i].wager;
            &&& (match bet_direction {
                BetDirection::For => final(book).bets_for@ == old(book).bets_for@.remove(i)
                    && final(book).bets_against@ == old(book).bets_against@,
                BetDirection::Against => final(book).bets_against@ == old(book).bets_against@.remove(i) && final(book).bets_for@ == old(book).bets_for@,
            })
            &&& final(book).wager_total == old(book).wager_total - w
            &&& final(book).positions@ == old(book).positions@.update(
                kv_idx(old(book).positions@, bettor),
                (
                    bettor,
                    Position {
                        active_bets_count: (kv_get(old(book).positions@, bettor).active_bets_count
                            - 1) as u32,
                        wager: (kv_get(old(book).positions@, bettor).wager - w) as u64,
                        ..kv_get(old(book).positions@, bettor)
                    },
                ),
            )
            &&& final(book).bets_count == old(book).bets_count
            &&& final(book).payout_for_total == old(book).payout_for_total
            &&& final(book).payout_against_total == old(book).payout_against_total
            &&& final(book).dealt_wager == old(book).dealt_wager
            &&& identity_eq(*old(book), *final(book))
            &&& oracle_state_eq(*old(book), *final(book))
            &&& dispute_state_eq(*old(book), *final(book))
        }),
{
    let ghost pre = *book;
    if !window_open(book, now) {
        return Err(BettingError::NotInWindow);
    }
    let found = match bet_direction {
        BetDirection::For => queue_find_id(&book.bets_for, bet_id),
        BetDirection::Against => queue_find_id(&book.bets_against, bet_id),
    };
    let i = match found {
        Some(i) => i,
        None => {
            return Err(BettingError::NotFound);
        },
    };
    let ghost q = match bet_direction {
        BetDirection::For => pre.bets_for@,
        BetDirection::Against => pre.bets_against@,
    };
    let bet = match bet_direction {
        BetDirection::For => book.bets_for[i],
        BetDirection::Against => book.bets_against[i],
    };
    proof {
        lemma_queue_id_idx_unique(q, i as int);
    }
    if bet.bettor != bettor {
        return Err(BettingError::NoAuthority);
    }
    match bet_direction {
        BetDirection::For => {
            book.bets_for.remove(i);
        },
        BetDirection::Against => {
            book.bets_against.remove(i);
        },
    }
    proof {
        lemma_queue_remove_at(q, i as int, pre.bets_count);
        assert(forall|j: int|
            0 <= j < pre.bets_for@.len() ==> bet_wager_fn()(#[trigger] pre.bets_for@[j]) >= 0);
        crate::sums::lemma_map_sum_bounds(pre.bets_for@, bet_wager_fn());
        assert(forall|j: int|
            0 <= j < pre.bets_against@.len() ==> bet_wager_fn()(
                #[trigger] pre.bets_against@[j],
            ) >= 0);
        crate::sums::lemma_map_sum_bounds(pre.bets_against@, bet_wager_fn());
        assert(bet_wager_fn()(q[i as int]) == bet.wager as int);
        assert(bet.wager <= queue_wager_sum(q));
    }
    book.wager_total = book.wager_total - bet.wager;
    let ghost is = kv_idx(pre.positions@, bettor);
    let ip = kv_find(&book.positions, bettor).unwrap();
    proof {
        lemma_kv_idx_unique(pre.positions@, ip as int);
        assert(ip as int == is);
        lemma_position_bounds(pre, ip as int);
        assert(position_wf(pre.positions@[ip as int].1, bettor, pre));
        assert(forall|j: int|
            0 <= j < pre.bets_for@.len() ==> bet_of_fn(bettor)(#[trigger] pre.bets_for@[j]) >= 0);
        crate::sums::lemma_map_sum_bounds(pre.bets_for@, bet_of_fn(bettor));
        assert(forall|j: int|
            0 <= j < pre.bets_against@.len() ==> bet_of_fn(bettor)(
                #[trigger] pre.bets_against@[j],
            ) >= 0);
        crate::sums::lemma_map_sum_bounds(pre.bets_against@, bet_of_fn(bettor));
        assert(bet_of_fn(bettor)(q[i as int]) == bet.wager as int);
        assert(bet.wager <= bettor_wager_sum(q, bettor));
        assert(forall|j: int|
            0 <= j < pre.bets_for@.len() ==> bet_count_fn(bettor)(
                #[trigger] pre.bets_for@[j],
            ) >= 0);
        crate::sums::lemma_map_sum_bounds(pre.bets_for@, bet_count_fn(bettor));
        assert(forall|j: int|
            0 <= j < pre.bets_against@.len() ==> bet_count_fn(bettor)(
                #[trigger] pre.bets_against@[j],
            ) >= 0);
        crate::sums::lemma_map_sum_bounds(pre.bets_against@, bet_count_fn(bettor));
        assert(bet_count_fn(bettor)(q[i as int]) == 1);
        assert(bettor_count(q, bettor) >= 1);
    }
    let p0 = book.positions[ip].1;
    let p1 = Position { active_bets_count: p0.active_bets_count - 1, wager: p0.wager - bet.wager, ..p0 };
    book.positions.set(ip, (bettor, p1));
    proof {
        lemma_kv_update(pre.positions@, is, p1);
        crate::sums::lemma_map_sum_update(pre.positions@, is, (bettor, p1), entry_fn(pos_wager_fn()));
        crate::sums::lemma_map_sum_update(pre.positions@, is, (bettor, p1), entry_fn(pos_dealt_fn()));
        crate::sums::lemma_map_sum_update(
            pre.positions@,
            is,
            (bettor, p1),
            entry_fn(pos_payout_for_fn()),
        );
        crate::sums::lemma_map_sum_update(
            pre.positions@,
            is,
            (bettor, p1),
            entry_fn(pos_payout_against_fn()),
        );
        crate::sums::lemma_map_sum_update(
            pre.positions@,
            is,
            (bettor, p1),
            entry_fn(pos_dispute_fn()),
        );
        let post = *book;
        match bet_direction {
            BetDirection::For => {
                assert forall|j: int|
                    0 <= j < post.bets_for@.len() implies kv_has(
                    post.positions@,
                    (#[trigger] post.bets_for@[j]).bettor,
                ) by {
                    let j2 = if j < i as int {
                        j
                    } else {
                        j + 1
                    };
                    assert(post.bets_for@[j] == pre.bets_for@[j2]);
                    assert(kv_has(pre.positions@, pre.bets_for@[j2].bettor));
                }
                assert forall|j: int|
                    0 <= j < post.bets_against@.len() implies kv_has(
                    post.positions@,
                    (#[trigger] post.bets_against@[j]).bettor,
                ) by {
                    assert(kv_has(pre.positions@, pre.bets_against@[j].bettor));
                }
            },
            BetDirection::Against => {
                assert forall|j: int|
                    0 <= j < post.bets_against@.len() implies kv_has(
                    post.positions@,
                    (#[trigger] post.bets_against@[j]).bettor,
                ) by {
                    let j2 = if j < i as int {
                        j
                    } else {
                        j + 1
                    };
                    assert(post.bets_against@[j] == pre.bets_against@[j2]);
                    assert(kv_has(pre.positions@, pre.bets_against@[j2].bettor));
                }
                assert forall|j: int|
                    0 <= j < post.bets_for@.len() implies kv_has(
                    post.positions@,
                    (#[trigger] post.bets_for@[j]).bettor,
                ) by {
                    assert(kv_has(pre.positions@, pre.bets_for@[j].bettor));
                }
            },
        }
        assert forall|j: int|
            0 <= j < post.positions@.len() implies position_wf(
            (#[trigger] post.positions@[j]).1,
            post.positions@[j].0,
            post,
        ) by {
            let w2 = post.positions@[j].0;
            assert(position_wf(pre.positions@[j].1, pre.positions@[j].0, pre));
            if j != is {
                assert(post.positions@[j] == pre.positions@[j]);
                assert(pre.positions@[j].0 != bettor) by {
                    lemma_kv_idx_unique(pre.positions@, is);
                    lemma_kv_idx_unique(pre.positions@, j);
                }
            } else {
                assert(post.positions@[j].1 == p1);
            }
        }
    }
    Ok(bet.wager)
}

/// Find the bet with this id, scanning in queue order.
fn queue_find_id(q: &Vec<Bet>, id: u64) -> (r: Option<usize>)
    ensures
        match r {
            Some(i) => 0 <= i < q@.len() && q@[i as int].id == id,
            None => !queue_has_id(q@, id),
        },
{
    let mut i: usize = 0;
    while i < q.len()
        invariant
            0 <= i <= q@.len(),
            forall|j: int| 0 <= j < i ==> (#[trigger] q@[j]).id != id,
        decreases q@.len() - i,
    {
        if q[i].id == id {
            return Some(i);
        }
        i = i + 1;
    }
    None
}

/// Drive the matcher until it reports no further progress, while the
/// market is open to bettor activity. Each call of the one-step matcher
/// either removes a bet or restores balance, so the loop terminates;
/// the final book is reached from the initial one by a finite chain of
/// progressing matching steps, and admits no further one.
pub fn book_match_bets(book: &mut Book, now: i64) -> (r: Result<(), BettingError>)
    requires
        old(book).wf(),
    ensures
        final(book).wf(),
        r == (if oracle_window_open(*old(book), now) {
            Result::<(), BettingError>::Ok(())
        } else {
            Result::<(), BettingError>::Err(BettingError::NotInWindow)
        }),
        r.is_err() ==> *final(book) == *old(book),
        r.is_ok() ==> !match_can_progress(*final(book)) && identity_eq(*old(book), *final(book))
            && oracle_state_eq(*old(book), *final(book)) && dispute_state_eq(
            *old(book),
            *final(book),
        ) && (exists|n: nat| match_steps(*old(book), *final(book), n)),
        crate::book::fully_accounted(*old(book)) ==> crate::book::fully_accounted(*final(book)),
{
    if !window_open(book, now) {
        return Err(BettingError::NotInWindow);
    }
    let ghost pre = *book;
    proof {
        assert(match_steps(pre, *book, 0));
    }
    loop
        invariant
            book.wf(),
            identity_eq(pre, *book),
            oracle_state_eq(pre, *book),
            dispute_state_eq(pre, *book),
            crate::book::fully_accounted(pre) ==> crate::book::fully_accounted(*book),
            exists|n: nat| match_steps(pre, *book, n),
        ensures
            !match_can_progress(*book),
            exists|n: nat| match_steps(pre, *book, n),
        decreases match_measure(*book),
    {
        let ghost before = *book;
        let progressed = book.match_bets();
        proof {
            if progressed {
                let n = choose|n: nat| match_steps(pre, before, n);
                lemma_match_steps_extend(pre, before, *book, n);
            }
        }
        if !progressed {
            break;
        }
    }
    Ok(())
}

/// What opting in as an oracle decides.
pub open spec fn oracle_opt_in_check(b: Book, oracle: AccountId, stake: u64, now: i64) -> Result<
    (),
    BettingError,
> {
    if stake < MIN_ORACLE_STAKE {
        Err(BettingError::MinTokenAmountNotMet)
    } else if !oracle_window_open(b, now) {
        Err(BettingError::NotInWindow)
    } else if kv_has(b.oracles@, oracle) {
        Err(BettingError::UserAlreadyOptIn)
    } else {
        Ok(())
    }
}

/// Register as an oracle with an initial stake at or above the floor.
pub fn book_oracle_opt_in(book: &mut Book, oracle: AccountId, stake: u64, now: i64) -> (r: Result<
    (),
    BettingError,
>)
    requires
        old(book).wf(),
        old(book).total_oracle_stake + stake <= u64::MAX,
    ensures
        final(book).wf(),
        r == oracle_opt_in_check(*old(book), oracle, stake, now),
        crate::book::fully_accounted(*old(book)) ==> crate::book::fully_accounted(*final(book)),
        r.is_err() ==> *final(book) == *old(book),
        r.is_ok() ==> final(book).oracles@ == old(book).oracles@.push(
            (oracle, Oracle { stake, outcome: None }),
        ) && final(book).total_oracle_stake == old(book).total_oracle_stake + stake
            && matching_state_eq(*old(book), *final(book)) && identity_eq(*old(book), *final(book))
            && dispute_state_eq(*old(book), *final(book)) && final(book).aggregated_oracle_outcome
            == old(book).aggregated_oracle_outcome && final(book).concluded_at == old(book).concluded_at,
{
    if stake < MIN_ORACLE_STAKE {
        return Err(BettingError::MinTokenAmountNotMet);
    }
    if !window_open(book, now) {
        return Err(BettingError::NotInWindow);
    }
    if let Some(_) = kv_find(&book.oracles, oracle) {
        return Err(BettingError::UserAlreadyOptIn);
    }
    let ghost pre = *book;
    book.oracles.push((oracle, Oracle { stake, outcome: None }));
    book.total_oracle_stake = book.total_oracle_stake + stake;
    proof {
        lemma_kv_push(pre.oracles@, oracle, Oracle { stake, outcome: None });
        crate::sums::lemma_map_sum_push(
            pre.oracles@,
            (oracle, Oracle { stake, outcome: None }),
            oracle_stake_fn(),
        );
        let post = *book;
        assert forall|j: int|
            0 <= j < post.positions@.len() implies position_wf(
            (#[trigger] post.positions@[j]).1,
            post.positions@[j].0,
            post,
        ) by {
            assert(position_wf(pre.positions@[j].1, pre.positions@[j].0, pre));
        }
    }
    Ok(())
}

/// What adding oracle stake decides.
pub open spec fn oracle_add_stake_check(b: Book, oracle: AccountId, now: i64) -> Result<
    (),
    BettingError,
> {
    if !oracle_window_open(b, now) {
        Err(BettingError::NotInWindow)
    } else if !kv_has(b.oracles@, oracle) {
        Err(BettingError::UserDidNotOptIn)
    } else {
        Ok(())
    }
}

/// Add stake to an existing oracle registration; the floor is not
/// re-checked.
pub fn book_oracle_add_stake(book: &mut Book, oracle: AccountId, stake: u64, now: i64) -> (r:
    Result<(), BettingError>)
    requires
        old(book).wf(),
        old(book).total_oracle_stake + stake <= u64::MAX,
    ensures
        final(book).wf(),
        r == oracle_add_stake_check(*old(book), oracle, now),
        crate::book::fully_accounted(*old(book)) ==> crate::book::fully_accounted(*final(book)),
        r.is_err() ==> *final(book) == *old(book),
        r.is_ok() ==> final(book).oracles@ == old(book).oracles@.update(
            kv_idx(old(book).oracles@, oracle),
            (
                oracle,
                Oracle {
                    stake: (kv_get(old(book).oracles@, oracle).stake + stake) as u64,
                    outcome: kv_get(old(book).oracles@, oracle).outcome,
                },
            ),
        ) && final(book).total_oracle_stake == old(book).total_oracle_stake + stake
            && matching_state_eq(*old(book), *final(book)) && identity_eq(*old(book), *final(book))
            && dispute_state_eq(*old(book), *final(book)) && final(book).aggregated_oracle_outcome
            == old(book).aggregated_oracle_outcome && final(book).concluded_at == old(book).concluded_at,
{
    if !window_open(book, now) {
        return Err(BettingError::NotInWindow);
    }
    let ghost pre = *book;
    let i = match kv_find(&book.oracles, oracle) {
        Some(i) => i,
        None => {
            return Err(BettingError::UserDidNotOptIn);
        },
    };
    proof {
        lemma_kv_idx_unique(pre.oracles@, i as int);
        assert(forall|j: int|
            0 <= j < pre.oracles@.len() ==> oracle_stake_fn()(#[trigger] pre.oracles@[j]) >= 0);
        crate::sums::lemma_map_sum_bounds(pre.oracles@, oracle_stake_fn());
        assert(oracle_stake_fn()(pre.oracles@[i as int]) == pre.oracles@[i as int].1.stake as int);
    }
    let o0 = book.oracles[i].1;
    let o1 = Oracle { stake: o0.stake + stake, outcome: o0.outcome };
    book.oracles.set(i, (oracle, o1));
    book.total_oracle_stake = book.total_oracle_stake + stake;
    proof {
        lemma_kv_update(pre.oracles@, i as int, o1);
        crate::sums::lemma_map_sum_update(pre.oracles@, i as int, (oracle, o1), oracle_stake_fn());
        let post = *book;
        assert forall|j: int|
            0 <= j < post.positions@.len() implies position_wf(
            (#[trigger] post.positions@[j]).1,
            post.positions@[j].0,
            post,
        ) by {
            assert(position_wf(pre.positions@[j].1, pre.positions@[j].0, pre));
        }
    }
    Ok(())
}

/// What reporting or retracting a vote decides.
pub open spec fn oracle_update_outcome_check(b: Book, oracle: AccountId, now: i64) -> Result<
    (),
    BettingError,
> {
    if !oracle_window_open(b, now) {
        Err(BettingError::NotInWindow)
    } else if !kv_has(b.oracles@, oracle) {
        Err(BettingError::UserDidNotOptIn)
    } else {
        Ok(())
    }
}

/// Set (or retract) an oracle's vote, then recompute the consensus.
/// When the consensus changes to a decided outcome the market concludes
/// now; when it reverts to none, the market reopens.
pub fn book_oracle_update_outcome(
    book: &mut Book,
    oracle: AccountId,
    bet_outcome: Option<BetOutcome>,
    now: i64,
) -> (r: Result<(), BettingError>)
    requires
        old(book).wf(),
        now + BETTOR_DISPUTE_WINDOW <= i64::MAX,
    ensures
        final(book).wf(),
        r == oracle_update_outcome_check(*old(book), oracle, now),
        crate::book::fully_accounted(*old(book)) ==> crate::book::fully_accounted(*final(book)),
        r.is_err() ==> *final(book) == *old(book),
        r.is_ok() ==> ({
            let s2 = old(book).oracles@.update(
                kv_idx(old(book).oracles@, oracle),
                (
                    oracle,
                    Oracle { stake: kv_get(old(book).oracles@, oracle).stake, outcome: bet_outcome },
                ),
            );
            let c = consensus_of(s2);
            &&& final(book).oracles@ == s2
            &&& (if c == old(book).aggregated_oracle_outcome {
                final(book).aggregated_oracle_outcome == old(book).aggregated_oracle_outcome
                    && final(book).concluded_at == old(book).concluded_at
            } else {
                final(book).aggregated_oracle_outcome == c && final(book).concluded_at == (
                if c.is_some() {
                    Some(now)
                } else {
                    None
                })
            })
            &&& final(book).total_oracle_stake == old(book).total_oracle_stake
            &&& matching_state_eq(*old(book), *final(book))
            &&& identity_eq(*old(book), *final(book))
            &&& dispute_state_eq(*old(book), *final(book))
        }),
{
    if !window_open(book, now) {
        return Err(BettingError::NotInWindow);
    }
    let ghost pre = *book;
    let i = match kv_find(&book.oracles, oracle) {
        Some(i) => i,
        None => {
            return Err(BettingError::UserDidNotOptIn);
        },
    };
    proof {
        lemma_kv_idx_unique(pre.oracles@, i as int);
    }
    let o0 = book.oracles[i].1;
    let o1 = Oracle { stake: o0.stake, outcome: bet_outcome };
    book.oracles.set(i, (oracle, o1));
    proof {
        lemma_kv_update(pre.oracles@, i as int, o1);
        crate::sums::lemma_map_sum_update(pre.oracles@, i as int, (oracle, o1), oracle_stake_fn());
        let mid = *book;
        assert forall|j: int|
            0 <= j < mid.positions@.len() implies position_wf(
            (#[trigger] mid.positions@[j]).1,
            mid.positions@[j].0,
            mid,
        ) by {
            assert(position_wf(pre.positions@[j].1, pre.positions@[j].0, pre));
        }
        assert(mid.wf());
    }
    let aggregated = book.aggregated_outcome();
    if !outcome_eq(book.aggregated_oracle_outcome, aggregated) {
        book.aggregated_oracle_outcome = aggregated;
        match aggregated {
            Some(_) => {
                book.concluded_at = Some(now);
            },
            None => {
                book.concluded_at = None;
            },
        }
        proof {
            let post = *book;
            assert forall|j: int|
                0 <= j < post.positions@.len() implies position_wf(
                (#[trigger] post.positions@[j]).1,
                post.positions@[j].0,
                post,
            ) by {
                assert(position_wf(pre.positions@[j].1, pre.positions@[j].0, pre));
            }
        }
    }
    Ok(())
}

/// What filing dispute stake decides.
pub open spec fn bettor_dispute_check(b: Book, bettor: AccountId, stake: u64, now: i64) -> Result<
    (),
    BettingError,
> {
    if stake < MIN_BETTOR_DISPUTE_STAKE {
        Err(BettingError::MinTokenAmountNotMet)
    } else if !dispute_window_open(b, now) {
        Err(BettingError::NotInWindow)
    } else if !kv_has(b.positions@, bettor) {
        Err(BettingError::UserDidNotOptIn)
    } else {
        Ok(())
    }
}

/// Back a dispute with stake: permitted only for an existing position
/// holder, within the dispute sub-window, and at or above the floor.
pub fn book_bettor_dispute(book: &mut Book, bettor: AccountId, stake: u64, now: i64) -> (r: Result<
    (),
    BettingError,
>)
    requires
        old(book).wf(),
        old(book).total_dispute_stake + stake <= u64::MAX,
    ensures
        final(book).wf(),
        r == bettor_dispute_check(*old(book), bettor, stake, now),
        crate::book::fully_accounted(*old(book)) ==> crate::book::fully_accounted(*final(book)),
        r.is_err() ==> *final(book) == *old(book),
        r.is_ok() ==> ({
            &&& final(book).positions@ == old(book).positions@.update(
                kv_idx(old(book).positions@, bettor),
                (
                    bettor,
                    Position {
                        dispute_stake: (kv_get(old(book).positions@, bettor).dispute_stake
                            + stake) as u64,
                        ..kv_get(old(book).positions@, bettor)
                    },
                ),
            )
            &&& final(book).total_dispute_stake == old(book).total_dispute_stake + stake
            &&& final(book).dispute_resolution_result == old(book).dispute_resolution_result
            &&& final(book).bets_for@ == old(book).bets_for@
            &&& final(book).bets_against@ == old(book).bets_against@
            &&& final(book).bets_count == old(book).bets_count
            &&& final(book).wager_total == old(book).wager_total
            &&& final(book).payout_for_total == old(book).payout_for_total
            &&& final(book).payout_against_total == old(book).payout_against_total
            &&& final(book).dealt_wager == old(book).dealt_wager
            &&& identity_eq(*old(book), *final(book))
            &&& oracle_state_eq(*old(book), *final(book))
        }),
{
    if stake < MIN_BETTOR_DISPUTE_STAKE {
        return Err(BettingError::MinTokenAmountNotMet);
    }
    let concluded_at = match book.concluded_at {
        Some(t) => t,
        None => {
            return Err(BettingError::NotInWindow);
        },
    };
    if !(concluded_at + ORACLE_UPDATE_WINDOW < now && now < concluded_at + BETTOR_DISPUTE_WINDOW) {
        return Err(BettingError::NotInWindow);
    }
    let ghost pre = *book;
    let i = match kv_find(&book.positions, bettor) {
        Some(i) => i,
        None => {
            return Err(BettingError::UserDidNotOptIn);
        },
    };
    proof {
        lemma_kv_idx_unique(pre.positions@, i as int);
        lemma_position_bounds(pre, i as int);
    }
    let p0 = book.positions[i].1;
    let p1 = Position { dispute_stake: p0.dispute_stake + stake, ..p0 };
    book.positions.set(i, (bettor, p1));
    book.total_dispute_stake = book.total_dispute_stake + stake;
    proof {
        lemma_kv_update(pre.positions@, i as int, p1);
        crate::sums::lemma_map_sum_update(
            pre.positions@,
            i as int,
            (bettor, p1),
            entry_fn(pos_wager_fn()),
        );
        crate::sums::lemma_map_sum_update(
            pre.positions@,
            i as int,
            (bettor, p1),
            entry_fn(pos_dealt_fn()),
        );
        crate::sums::lemma_map_sum_update(
            pre.positions@,
            i as int,
            (bettor, p1),
            entry_fn(pos_payout_for_fn()),
        );
        crate::sums::lemma_map_sum_update(
            pre.positions@,
            i as int,
            (bettor, p1),
            entry_fn(pos_payout_against_fn()),
        );
        crate::sums::lemma_map_sum_update(
            pre.positions@,
            i as int,
            (bettor, p1),
            entry_fn(pos_dispute_fn()),
        );
        let post = *book;
        assert forall|j: int|
            0 <= j < post.bets_for@.len() implies kv_has(
            post.positions@,
            (#[trigger] post.bets_for@[j]).bettor,
        ) by {
            assert(kv_has(pre.positions@, pre.bets_for@[j].bettor));
        }
        assert forall|j: int|
            0 <= j < post.bets_against@.len() implies kv_has(
            post.positions@,
            (#[trigger] post.bets_against@[j]).bettor,
        ) by {
            assert(kv_has(pre.positions@, pre.bets_against@[j].bettor));
        }
        assert forall|j: int|
            0 <= j < post.positions@.len() implies position_wf(
            (#[trigger] post.positions@[j]).1,
            post.positions@[j].0,
            post,
        ) by {
            assert(position_wf(pre.positions@[j].1, pre.positions@[j].0, pre));
            if j != i as int {
                assert(post.positions@[j] == pre.positions@[j]);
            } else {
                assert(post.positions@[j].1 == p1);
            }
        }
    }
    Ok(())
}

/// What resolving a dispute decides.
pub open spec fn resolve_dispute_check(b: Book, now: i64) -> Result<(), BettingError> {
    if b.total_dispute_stake == 0 {
        Err(BettingError::NoAuthority)
    } else if b.concluded_at.is_none() {
        Err(BettingError::NoAuthority)
    } else if !(b.concluded_at.unwrap() + BETTOR_DISPUTE_WINDOW < now) {
        Err(BettingError::NotInWindow)
    } else {
        Ok(())
    }
}

/// Record the operator's dispute resolution: permitted only once
/// dispute stake exists and the dispute window has fully elapsed. From
/// then on the recorded outcome overrides the oracle consensus in every
/// settlement. The caller has already verified the operator's identity.
pub fn book_operator_resolve_dispute(book: &mut Book, bet_outcome: BetOutcome, now: i64) -> (r:
    Result<(), BettingError>)
    requires
        old(book).wf(),
    ensures
        final(book).wf(),
        r == resolve_dispute_check(*old(book), now),
        crate::book::fully_accounted(*old(book)) ==> crate::book::fully_accounted(*final(book)),
        r.is_err() ==> *final(book) == *old(book),
        r.is_ok() ==> final(book).dispute_resolution_result == Some(bet_outcome) && final(book).total_dispute_stake == old(book).total_dispute_stake && matching_state_eq(
            *old(book),
            *final(book),
        ) && identity_eq(*old(book), *final(book)) && oracle_state_eq(*old(book), *final(book)),
{
    if book.total_dispute_stake == 0 {
        return Err(BettingError::NoAuthority);
    }
    let concluded_at = match book.concluded_at {
        Some(t) => t,
        None => {
            return Err(BettingError::NoAuthority);
        },
    };
    if !(concluded_at + BETTOR_DISPUTE_WINDOW < now) {
        return Err(BettingError::NotInWindow);
    }
    let ghost pre = *book;
    book.dispute_resolution_result = Some(bet_outcome);
    proof {
        let post = *book;
        assert forall|j: int|
            0 <= j < post.positions@.len() implies position_wf(
            (#[trigger] post.positions@[j]).1,
            post.positions@[j].0,
            post,
        ) by {
            assert(position_wf(pre.positions@[j].1, pre.positions@[j].0, pre));
        }
    }
    Ok(())
}

} // verus!
