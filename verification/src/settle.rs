//! Settlement: once the outcome is final, each bettor, each oracle and
//! finally the initiator withdraw exactly what the book owes them; the
//! operator sweeps whatever rounding left behind.

use vstd::prelude::*;
use crate::book::{
    AccountId, Bet, Book, BetOutcome, bettor_count, bettor_wager_sum, bet_count_fn, bet_of_fn,
    bet_wager_fn, consensus_of, dispute_state_eq, entry_fn, identity_eq, lemma_position_bounds,
    matching_state_eq, oracle_state_eq, oracle_stake_fn, oracle_stake_sum, pos_dealt_fn,
    pos_dispute_fn, pos_payout_against_fn, pos_payout_for_fn, pos_wager_fn, position_wf,
    queue_wager_sum, queue_wf,
};
use crate::constants::{
    BETTOR_DISPUTE_WINDOW, BETTOR_PAYOUT_RATE, INITIATOR_REWARD_SHARE, ORACLES_REWARD_SHARE,
    RATE_SCALE,
};
use crate::errors::BettingError;
use crate::kv::{kv_find, kv_get, kv_has, kv_idx, lemma_kv_idx_unique, lemma_kv_remove};

verus! {

/// A queue with every bet of `who` removed, other bets kept in order.
pub open spec fn queue_without(q: Seq<Bet>, who: AccountId) -> Seq<Bet>
    decreases q.len(),
{
    if q.len() == 0 {
        q
    } else {
        let rest = queue_without(q.drop_last(), who);
        if q.last().bettor == who {
            rest
        } else {
            rest.push(q.last())
        }
    }
}

/// What removing one bettor's bets does to a queue: their bets and
/// nothing else leave, in place.
pub proof fn lemma_queue_without(q: Seq<Bet>, who: AccountId, bc: u32)
    requires
        queue_wf(q, bc),
    ensures
        queue_wf(queue_without(q, who), bc),
        forall|j: int|
            0 <= j < queue_without(q, who).len() ==> (#[trigger] queue_without(q, who)[j]).bettor
                != who,
        forall|j: int|
            0 <= j < queue_without(q, who).len() ==> q.contains(
                #[trigger] queue_without(q, who)[j],
            ),
        queue_wager_sum(queue_without(q, who)) == queue_wager_sum(q) - bettor_wager_sum(q, who),
        forall|w2: AccountId|
            w2 != who ==> #[trigger] bettor_count(queue_without(q, who), w2) == bettor_count(
                q,
                w2,
            ),
        forall|w2: AccountId|
            w2 != who ==> #[trigger] bettor_wager_sum(queue_without(q, who), w2)
                == bettor_wager_sum(q, w2),
        bettor_count(queue_without(q, who), who) == 0,
        bettor_wager_sum(queue_without(q, who), who) == 0,
    decreases q.len(),
{
    let t = queue_without(q, who);
    crate::sums::lemma_map_sum_bounds(q.map_values(bet_wager_fn()), |x: int| x);
    if q.len() == 0 {
        assert(q.map_values(bet_wager_fn()) =~= Seq::<int>::empty());
        assert(forall|w2: AccountId| q.map_values(bet_of_fn(w2)) =~= Seq::<int>::empty());
        assert(forall|w2: AccountId| q.map_values(bet_count_fn(w2)) =~= Seq::<int>::empty());
    } else {
        let d = q.drop_last();
        let b = q.last();
        assert(queue_wf(d, bc)) by {
            assert(forall|j: int| 0 <= j < d.len() ==> d[j] == q[j]);
        }
        lemma_queue_without(d, who, bc);
        let rest = queue_without(d, who);
        // sums over the whole queue split off the last element
        assert(q.map_values(bet_wager_fn()).drop_last() =~= d.map_values(bet_wager_fn()));
        assert(q.map_values(bet_wager_fn()).last() == bet_wager_fn()(b));
        assert forall|w2: AccountId| #[trigger]
            bettor_wager_sum(q, w2) == bettor_wager_sum(d, w2) + bet_of_fn(w2)(b) by {
            assert(q.map_values(bet_of_fn(w2)).drop_last() =~= d.map_values(bet_of_fn(w2)));
            assert(q.map_values(bet_of_fn(w2)).last() == bet_of_fn(w2)(b));
        }
        assert forall|w2: AccountId| #[trigger]
            bettor_count(q, w2) == bettor_count(d, w2) + bet_count_fn(w2)(b) by {
            assert(q.map_values(bet_count_fn(w2)).drop_last() =~= d.map_values(bet_count_fn(w2)));
            assert(q.map_values(bet_count_fn(w2)).last() == bet_count_fn(w2)(b));
        }
        if b.bettor == who {
            assert(t == rest);
        } else {
            assert(t == rest.push(b));
            crate::sums::lemma_map_sum_push(rest, b, bet_wager_fn());
            assert forall|w2: AccountId| #[trigger]
                bettor_wager_sum(t, w2) == bettor_wager_sum(rest, w2) + bet_of_fn(w2)(b) by {
                crate::sums::lemma_map_sum_push(rest, b, bet_of_fn(w2));
            }
            assert forall|w2: AccountId| #[trigger]
                bettor_count(t, w2) == bettor_count(rest, w2) + bet_count_fn(w2)(b) by {
                crate::sums::lemma_map_sum_push(rest, b, bet_count_fn(w2));
            }
            // order: everything already kept comes from the shorter
            // prefix, whose ids are below the last id
            assert forall|a: int, c: int| 0 <= a < c < t.len() implies t[a].id < t[c].id by {
                if c < t.len() - 1 {
                    assert(rest[a].id < rest[c].id);
                } else {
                    assert(t[a] == rest[a]);
                    assert(d.contains(rest[a]));
                    let k = choose|k: int| 0 <= k < d.len() && d[k] == rest[a];
                    assert(d[k] == q[k]);
                    assert(q[k].id < b.id);
                }
            }
            assert forall|j: int| 0 <= j < t.len() implies q.contains(#[trigger] t[j]) by {
                if j < t.len() - 1 {
                    assert(d.contains(rest[j]));
                    let k = choose|k: int| 0 <= k < d.len() && d[k] == rest[j];
                    assert(q[k] == t[j]);
                } else {
                    assert(t[j] == q[q.len() - 1]);
                }
            }
            assert forall|j: int|
                0 <= j < t.len() implies (#[trigger] t[j]).wager > 0 && crate::book::id_seq(
                t[j].id,
            ) < bc by {
                let k = choose|k: int| 0 <= k < q.len() && q[k] == t[j];
                assert(q[k].wager > 0);
            }
        }
        assert forall|j: int| 0 <= j < t.len() implies q.contains(#[trigger] t[j]) by {
            if b.bettor == who || j < t.len() - 1 {
                assert(rest.len() <= t.len());
            }
            if t == rest {
                assert(d.contains(t[j]));
                let k = choose|k: int| 0 <= k < d.len() && d[k] == t[j];
                assert(q[k] == t[j]);
            }
        }
    }
}

/// Remove every bet of `who` from a queue, keeping the others in order.
fn queue_retain_others(q: &mut Vec<Bet>, who: AccountId)
    ensures
        final(q)@ == queue_without(old(q)@, who),
{
    let mut out: Vec<Bet> = Vec::new();
    let mut i: usize = 0;
    proof {
        assert(old(q)@.take(0) =~= Seq::<Bet>::empty());
    }
    while i < q.len()
        invariant
            q@ == old(q)@,
            0 <= i <= q@.len(),
            out@ == queue_without(q@.take(i as int), who),
        decreases q@.len() - i,
    {
        proof {
            assert(q@.take(i + 1).drop_last() =~= q@.take(i as int));
            assert(q@.take(i + 1).last() == q@[i as int]);
        }
        if q[i].bettor != who {
            out.push(q[i]);
        }
        i = i + 1;
    }
    proof {
        assert(q@.take(q@.len() as int) =~= q@);
    }
    *q = out;
}

/// The oracle consensus as settlement sees it: recomputed over the
/// oracles still registered, or nothing when none remain.
pub open spec fn live_oracle_outcome(b: Book) -> Option<BetOutcome> {
    if b.oracles@.len() > 0 {
        consensus_of(b.oracles@)
    } else {
        None
    }
}

/// The final outcome used by bettor settlement: the dispute resolution
/// whenever any dispute stake exists, else the live oracle consensus.
pub open spec fn final_outcome_of(b: Book) -> Option<BetOutcome> {
    if b.total_dispute_stake > 0 {
        b.dispute_resolution_result
    } else {
        live_oracle_outcome(b)
    }
}

/// The final outcome used by oracle settlement, which reads the stored
/// consensus snapshot rather than recomputing it.
pub open spec fn stored_final_outcome(b: Book) -> Option<BetOutcome> {
    if b.total_dispute_stake > 0 {
        b.dispute_resolution_result
    } else {
        b.aggregated_oracle_outcome
    }
}

/// Everything a bettor is owed: the haircut share of the winning side's
/// matched payout, the unmatched remainder of their wager in full, and
/// their dispute stake back when the dispute overturned the oracles.
pub open spec fn bettor_settlement_amount(b: Book, bettor: AccountId) -> int {
    let p = kv_get(b.positions@, bettor);
    let base = match final_outcome_of(b) {
        Some(BetOutcome::For) => (p.payout_for * BETTOR_PAYOUT_RATE) / (RATE_SCALE as int) + (p.wager
            - p.dealt_wager),
        Some(BetOutcome::Cancel) => p.wager as int,
        Some(BetOutcome::Against) => (p.payout_against * BETTOR_PAYOUT_RATE) / (RATE_SCALE as int) + (
        p.wager - p.dealt_wager),
        None => 0,
    };
    base + (if final_outcome_of(b) != live_oracle_outcome(b) {
        p.dispute_stake as int
    } else {
        0int
    })
}

/// What settling a bettor decides.
pub open spec fn bettor_settle_check(b: Book, bettor: AccountId, now: i64) -> Result<
    u64,
    BettingError,
> {
    if b.concluded_at.is_none() {
        Err(BettingError::NotInWindow)
    } else if !(b.concluded_at.unwrap() + BETTOR_DISPUTE_WINDOW < now) {
        Err(BettingError::NotInWindow)
    } else if final_outcome_of(b).is_none() {
        Err(BettingError::NoResultYet)
    } else if !kv_has(b.positions@, bettor) {
        Err(BettingError::NotFound)
    } else {
        Ok(bettor_settlement_amount(b, bettor) as u64)
    }
}

/// Settle one bettor: remove all their open bets and their position,
/// and report the amount the platform must pay them.
pub fn book_bettor_settle(book: &mut Book, bettor: AccountId, now: i64) -> (r: Result<
    u64,
    BettingError,
>)
    requires
        old(book).wf(),
        kv_has(old(book).positions@, bettor) ==> bettor_settlement_amount(*old(book), bettor)
            <= u64::MAX,
    ensures
        final(book).wf(),
        r == bettor_settle_check(*old(book), bettor, now),
        r.is_err() ==> *final(book) == *old(book),
        r.is_ok() ==> ({
            &&& final(book).bets_for@ == queue_without(old(book).bets_for@, bettor)
            &&& final(book).bets_against@ == queue_without(old(book).bets_against@, bettor)
            &&& final(book).positions@ == old(book).positions@.remove(
                kv_idx(old(book).positions@, bettor),
            )
            &&& final(book).bets_count == old(book).bets_count
            &&& final(book).wager_total == old(book).wager_total
            &&& final(book).payout_for_total == old(book).payout_for_total
            &&& final(book).payout_against_total == old(book).payout_against_total
            &&& final(book).dealt_wager == old(book).dealt_wager
            &&& identity_eq(*old(book), *final(book))
            &&& oracle_state_eq(*old(book), *final(book))
            &&& dispute_state_eq(*old(book), *final(book))
        }),
{
    let ghost pre = *book;
    let concluded_at = match book.concluded_at {
        Some(t) => t,
        None => {
            return Err(BettingError::NotInWindow);
        },
    };
    if !(concluded_at + BETTOR_DISPUTE_WINDOW < now) {
        return Err(BettingError::NotInWindow);
    }
    let oracle_outcome: Option<BetOutcome> = if book.oracles.len() > 0 {
        book.aggregated_outcome()
    } else {
        None
    };
    let final_outcome: Option<BetOutcome> = if book.total_dispute_stake > 0 {
        book.dispute_resolution_result
    } else {
        oracle_outcome
    };
    proof {
        assert(final_outcome == final_outcome_of(pre));
        assert(oracle_outcome == live_oracle_outcome(pre));
    }
    let outcome = match final_outcome {
        Some(o) => o,
        None => {
            return Err(BettingError::NoResultYet);
        },
    };
    let i = match kv_find(&book.positions, bettor) {
        Some(i) => i,
        None => {
            return Err(BettingError::NotFound);
        },
    };
    proof {
        lemma_kv_idx_unique(pre.positions@, i as int);
        lemma_position_bounds(pre, i as int);
        assert(position_wf(pre.positions@[i as int].1, bettor, pre));
        assert(forall|j: int|
            0 <= j < pre.bets_for@.len() ==> bet_of_fn(bettor)(#[trigger] pre.bets_for@[j]) >= 0);
        crate::sums::lemma_map_sum_bounds(pre.bets_for@, bet_of_fn(bettor));
        assert(forall|j: int|
            0 <= j < pre.bets_against@.len() ==> bet_of_fn(bettor)(
                #[trigger] pre.bets_against@[j],
            ) >= 0);
        crate::sums::lemma_map_sum_bounds(pre.bets_against@, bet_of_fn(bettor));
    }
    let p = book.positions[i].1;
    let base128: u128 = match outcome {
        BetOutcome::For => (p.payout_for as u128) * (BETTOR_PAYOUT_RATE as u128) / (
        RATE_SCALE as u128) + ((p.wager - p.dealt_wager) as u128),
        BetOutcome::Cancel => p.wager as u128,
        BetOutcome::Against => (p.payout_against as u128) * (BETTOR_PAYOUT_RATE as u128) / (
        RATE_SCALE as u128) + ((p.wager - p.dealt_wager) as u128),
    };
    let refund_dispute = !crate::book::outcome_eq(final_outcome, oracle_outcome);
    let amount128: u128 = base128 + (if refund_dispute {
        p.dispute_stake as u128
    } else {
        0
    });
    proof {
        vstd::arithmetic::mul::lemma_mul_upper_bound(
            p.payout_for as int,
            u64::MAX as int,
            BETTOR_PAYOUT_RATE as int,
            u64::MAX as int,
        );
        vstd::arithmetic::mul::lemma_mul_upper_bound(
            p.payout_against as int,
            u64::MAX as int,
            BETTOR_PAYOUT_RATE as int,
            u64::MAX as int,
        );
        assert(amount128 == bettor_settlement_amount(pre, bettor));
    }
    let amount: u64 = amount128 as u64;
    queue_retain_others(&mut book.bets_for, bettor);
    queue_retain_others(&mut book.bets_against, bettor);
    book.positions.remove(i);
    proof {
        lemma_queue_without(pre.bets_for@, bettor, pre.bets_count);
        lemma_queue_without(pre.bets_against@, bettor, pre.bets_count);
        lemma_kv_remove(pre.positions@, i as int);
        pre.positions@.remove_ensures(i as int);
        crate::sums::lemma_map_sum_remove(pre.positions@, i as int, entry_fn(pos_wager_fn()));
        crate::sums::lemma_map_sum_remove(pre.positions@, i as int, entry_fn(pos_dealt_fn()));
        crate::sums::lemma_map_sum_remove(pre.positions@, i as int, entry_fn(pos_payout_for_fn()));
        crate::sums::lemma_map_sum_remove(
            pre.positions@,
            i as int,
            entry_fn(pos_payout_against_fn()),
        );
        crate::sums::lemma_map_sum_remove(pre.positions@, i as int, entry_fn(pos_dispute_fn()));
        let post = *book;
        assert forall|j: int|
            0 <= j < post.bets_for@.len() implies kv_has(
            post.positions@,
            (#[trigger] post.bets_for@[j]).bettor,
        ) by {
            let bet = post.bets_for@[j];
            assert(pre.bets_for@.contains(bet));
            let k = choose|k: int| 0 <= k < pre.bets_for@.len() && pre.bets_for@[k] == bet;
            assert(kv_has(pre.positions@, bet.bettor));
            assert(bet.bettor != bettor);
        }
        assert forall|j: int|
            0 <= j < post.bets_against@.len() implies kv_has(
            post.positions@,
            (#[trigger] post.bets_against@[j]).bettor,
        ) by {
            let bet = post.bets_against@[j];
            assert(pre.bets_against@.contains(bet));
            let k = choose|k: int| 0 <= k < pre.bets_against@.len() && pre.bets_against@[k] == bet;
            assert(kv_has(pre.positions@, bet.bettor));
            assert(bet.bettor != bettor);
        }
        assert forall|j: int|
            0 <= j < post.positions@.len() implies position_wf(
            (#[trigger] post.positions@[j]).1,
            post.positions@[j].0,
            post,
        ) by {
            let j2 = if j < i as int {
                j
            } else {
                j + 1
            };
            assert(post.positions@[j] == pre.positions@[j2]);
            assert(position_wf(pre.positions@[j2].1, pre.positions@[j2].0, pre));
            assert(pre.positions@[j2].0 != bettor) by {
                lemma_kv_idx_unique(pre.positions@, i as int);
                lemma_kv_idx_unique(pre.positions@, j2);
            }
        }
    }
    Ok(amount)
}

/// The book's total matched profit: the haircut retained from every
/// dealt unit.
pub open spec fn total_profit_of(b: Book) -> int {
    (b.dealt_wager * (RATE_SCALE - BETTOR_PAYOUT_RATE)) / (RATE_SCALE as int)
}

/// The share of the profit pool set aside for correct oracles.
pub open spec fn oracle_reward_pool(b: Book) -> int {
    (total_profit_of(b) * ORACLES_REWARD_SHARE) / (RATE_SCALE as int)
}

/// What an oracle is owed: stake plus a stake-proportional share of the
/// reward pool when its vote matches the final outcome, nothing
/// otherwise.
pub open spec fn oracle_settlement_amount(b: Book, oracle: AccountId) -> int {
    let o = kv_get(b.oracles@, oracle);
    if o.outcome == stored_final_outcome(b) {
        o.stake + (oracle_reward_pool(b) * o.stake) / (b.total_oracle_stake as int)
    } else {
        0
    }
}

/// What settling an oracle decides.
pub open spec fn oracle_settle_check(b: Book, oracle: AccountId, now: i64) -> Result<
    u64,
    BettingError,
> {
    if b.concluded_at.is_none() {
        Err(BettingError::NotInWindow)
    } else if !(b.concluded_at.unwrap() + BETTOR_DISPUTE_WINDOW < now) {
        Err(BettingError::NotInWindow)
    } else if !(b.bets_for@.len() == 0 && b.bets_against@.len() == 0 && b.positions@.len() == 0) {
        Err(BettingError::BookNotSettled)
    } else if !kv_has(b.oracles@, oracle) {
        Err(BettingError::NotFound)
    } else {
        Ok(oracle_settlement_amount(b, oracle) as u64)
    }
}

/// Settle one oracle, once every bettor is settled: remove its
/// registration and report the amount the platform must pay it.
pub fn book_oracle_settle(book: &mut Book, oracle: AccountId, now: i64) -> (r: Result<
    u64,
    BettingError,
>)
    requires
        old(book).wf(),
        kv_has(old(book).oracles@, oracle) ==> oracle_settlement_amount(*old(book), oracle)
            <= u64::MAX,
    ensures
        final(book).wf(),
        r == oracle_settle_check(*old(book), oracle, now),
        r.is_err() ==> *final(book) == *old(book),
        r.is_ok() ==> ({
            &&& final(book).oracles@ == old(book).oracles@.remove(
                kv_idx(old(book).oracles@, oracle),
            )
            &&& final(book).total_oracle_stake == old(book).total_oracle_stake
            &&& final(book).aggregated_oracle_outcome == old(book).aggregated_oracle_outcome
            &&& final(book).concluded_at == old(book).concluded_at
            &&& matching_state_eq(*old(book), *final(book))
            &&& identity_eq(*old(book), *final(book))
            &&& dispute_state_eq(*old(book), *final(book))
        }),
{
    let ghost pre = *book;
    let concluded_at = match book.concluded_at {
        Some(t) => t,
        None => {
            return Err(BettingError::NotInWindow);
        },
    };
    if !(concluded_at + BETTOR_DISPUTE_WINDOW < now) {
        return Err(BettingError::NotInWindow);
    }
    if !(book.bets_for.len() == 0 && book.bets_against.len() == 0 && book.positions.len() == 0) {
        return Err(BettingError::BookNotSettled);
    }
    let i = match kv_find(&book.oracles, oracle) {
        Some(i) => i,
        None => {
            return Err(BettingError::NotFound);
        },
    };
    proof {
        lemma_kv_idx_unique(pre.oracles@, i as int);
        assert(forall|j: int|
            0 <= j < pre.oracles@.len() ==> oracle_stake_fn()(#[trigger] pre.oracles@[j]) >= 0);
        crate::sums::lemma_map_sum_bounds(pre.oracles@, oracle_stake_fn());
        assert(oracle_stake_fn()(pre.oracles@[i as int]) == pre.oracles@[i as int].1.stake as int);
        assert(pre.oracles@[i as int].1.stake <= oracle_stake_sum(pre.oracles@));
    }
    let o = book.oracles[i].1;
    let stored_outcome: Option<BetOutcome> = if book.total_dispute_stake > 0 {
        book.dispute_resolution_result
    } else {
        book.aggregated_oracle_outcome
    };
    let haircut: u64 = RATE_SCALE - BETTOR_PAYOUT_RATE;
    let amount: u64;
    if crate::book::outcome_eq(o.outcome, stored_outcome) {
        proof {
            vstd::arithmetic::mul::lemma_mul_upper_bound(
                book.dealt_wager as int,
                u64::MAX as int,
                haircut as int,
                u64::MAX as int,
            );
        }
        let profit128: u128 = (book.dealt_wager as u128) * (haircut as u128) / (RATE_SCALE as u128);
        proof {
            vstd::arithmetic::div_mod::lemma_div_nonincreasing(profit128 as int, 10000);
            vstd::arithmetic::mul::lemma_mul_upper_bound(
                profit128 as int,
                u128::MAX as int / 20000,
                ORACLES_REWARD_SHARE as int,
                RATE_SCALE as int,
            );
        }
        let reward128: u128 = profit128 * (ORACLES_REWARD_SHARE as u128) / (RATE_SCALE as u128);
        proof {
            assert(reward128 <= profit128) by {
                vstd::arithmetic::div_mod::lemma_fundamental_div_mod(
                    profit128 as int * ORACLES_REWARD_SHARE as int,
                    RATE_SCALE as int,
                );
                assert((profit128 as int * 6000) / 10000 <= profit128 as int)
                    by (nonlinear_arith);
            }
            assert(profit128 <= u64::MAX) by {
                assert((book.dealt_wager as int * haircut as int) / 10000 <= book.dealt_wager
                    as int) by (nonlinear_arith)
                    requires
                        haircut == 100,
                        book.dealt_wager >= 0,
                ;
            }
            vstd::arithmetic::mul::lemma_mul_upper_bound(
                reward128 as int,
                u64::MAX as int,
                o.stake as int,
                u64::MAX as int,
            );
        }
        let share128: u128 = reward128 * (o.stake as u128) / (book.total_oracle_stake as u128);
        proof {
            assert(profit128 == total_profit_of(pre));
            assert(reward128 == oracle_reward_pool(pre));
            assert(o.stake + share128 == oracle_settlement_amount(pre, oracle));
        }
        amount = o.stake + (share128 as u64);
    } else {
        amount = 0;
    }
    book.oracles.remove(i);
    proof {
        lemma_kv_remove(pre.oracles@, i as int);
        pre.oracles@.remove_ensures(i as int);
        crate::sums::lemma_map_sum_remove(pre.oracles@, i as int, oracle_stake_fn());
        let post = *book;
        assert forall|j: int|
            0 <= j < post.positions@.len() implies position_wf(
            (#[trigger] post.positions@[j]).1,
            post.positions@[j].0,
            post,
        ) by {
            assert(position_wf(pre.positions@[j].1, pre.positions@[j].0, pre));
        }
    }
    Ok(amount)
}

/// What the initiator's settlement decides: its fixed share of the
/// matched profit, and the residual sweep to the operator.
pub open spec fn initiator_reward_of(b: Book) -> int {
    (total_profit_of(b) * INITIATOR_REWARD_SHARE) / (RATE_SCALE as int)
}

pub open spec fn initiator_settle_check(
    b: Book,
    initiator: AccountId,
    now: i64,
    book_balance: u64,
) -> Result<(u64, u64), BettingError> {
    if initiator != b.initiator {
        Err(BettingError::NoAuthority)
    } else if b.concluded_at.is_none() {
        Err(BettingError::NotInWindow)
    } else if !(b.concluded_at.unwrap() + BETTOR_DISPUTE_WINDOW < now) {
        Err(BettingError::NotInWindow)
    } else if !(b.bets_for@.len() == 0 && b.bets_against@.len() == 0 && b.positions@.len() == 0) {
        Err(BettingError::BookNotSettled)
    } else if b.oracles@.len() != 0 {
        Err(BettingError::BookNotSettled)
    } else {
        Ok((initiator_reward_of(b) as u64, (book_balance - initiator_reward_of(b)) as u64))
    }
}

/// Settle the initiator, last of all: pay it its share of the matched
/// profit and sweep every remaining token in the book's escrow to the
/// operator, so rounding remainders always land with the operator.
/// Returns the initiator's and the operator's amounts; the caller moves
/// the funds.
pub fn book_initiator_settle(book: &Book, initiator: AccountId, now: i64, book_balance: u64) -> (r:
    Result<(u64, u64), BettingError>)
    requires
        book.wf(),
        initiator_reward_of(*book) <= book_balance,
    ensures
        r == initiator_settle_check(*book, initiator, now, book_balance),
{
    if initiator != book.initiator {
        return Err(BettingError::NoAuthority);
    }
    let concluded_at = match book.concluded_at {
        Some(t) => t,
        None => {
            return Err(BettingError::NotInWindow);
        },
    };
    if !(concluded_at + BETTOR_DISPUTE_WINDOW < now) {
        return Err(BettingError::NotInWindow);
    }
    if !(book.bets_for.len() == 0 && book.bets_against.len() == 0 && book.positions.len() == 0) {
        return Err(BettingError::BookNotSettled);
    }
    if book.oracles.len() != 0 {
        return Err(BettingError::BookNotSettled);
    }
    let haircut: u64 = RATE_SCALE - BETTOR_PAYOUT_RATE;
    proof {
        vstd::arithmetic::mul::lemma_mul_upper_bound(
            book.dealt_wager as int,
            u64::MAX as int,
            haircut as int,
            u64::MAX as int,
        );
    }
    let profit128: u128 = (book.dealt_wager as u128) * (haircut as u128) / (RATE_SCALE as u128);
    proof {
        assert(profit128 <= u64::MAX) by {
            assert((book.dealt_wager as int * haircut as int) / 10000 <= book.dealt_wager as int)
                by (nonlinear_arith)
                requires
                    haircut == 100,
                    book.dealt_wager >= 0,
            ;
        }
        vstd::arithmetic::mul::lemma_mul_upper_bound(
            profit128 as int,
            u64::MAX as int,
            INITIATOR_REWARD_SHARE as int,
            u64::MAX as int,
        );
    }
    let reward128: u128 = profit128 * (INITIATOR_REWARD_SHARE as u128) / (RATE_SCALE as u128);
    let reward: u64 = reward128 as u64;
    Ok((reward, book_balance - reward))
}

/// What closing the book decides: the initiator may tear it down once
/// every collection and the escrow balance are empty.
pub open spec fn book_close_check(b: Book, initiator: AccountId, book_balance: u64) -> Result<
    (),
    BettingError,
> {
    if initiator != b.initiator {
        Err(BettingError::NoAuthority)
    } else if !(b.bets_for@.len() == 0 && b.bets_against@.len() == 0 && b.oracles@.len() == 0
        && b.positions@.len() == 0 && book_balance == 0) {
        Err(BettingError::BookNotSettled)
    } else {
        Ok(())
    }
}

/// Check that the book may be torn down: only its initiator, and only
/// once nothing and nobody is left in it.
pub fn book_close(book: &Book, initiator: AccountId, book_balance: u64) -> (r: Result<
    (),
    BettingError,
>)
    ensures
        r == book_close_check(*book, initiator, book_balance),
{
    if initiator != book.initiator {
        return Err(BettingError::NoAuthority);
    }
    if !(book.bets_for.len() == 0 && book.bets_against.len() == 0 && book.oracles.len() == 0
        && book.positions.len() == 0 && book_balance == 0) {
        return Err(BettingError::BookNotSettled);
    }
    Ok(())
}

} // verus!
