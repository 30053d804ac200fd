//! The book's global guarantees, stated once and proved from the
//! operations' contracts: collateral conservation, the absence of
//! exhausted bets in the queues, and settlement conservation.

use vstd::prelude::*;
use crate::book::{
    AccountId, Book, BetOutcome, Oracle, Position, entry_fn, fully_accounted, oracle_stake_fn,
    oracle_stake_sum, pos_dealt_fn, pos_dispute_fn, pos_payout_against_fn, pos_payout_for_fn,
    pos_sum, pos_wager_fn,
};
use crate::constants::{BETTOR_PAYOUT_RATE, INITIATOR_REWARD_SHARE, ORACLES_REWARD_SHARE, RATE_SCALE};
use crate::kv::{kv_get, kv_has};
use crate::settle::{
    final_outcome_of, initiator_reward_of, live_oracle_outcome, oracle_reward_pool,
    oracle_settlement_amount, bettor_settlement_amount, stored_final_outcome, total_profit_of,
};
use crate::sums::{
    lemma_map_sum_add_pointwise, lemma_map_sum_bounds, lemma_map_sum_mono, lemma_map_sum_zero,
    lemma_sum_of_fractions_le, sum_int,
};

verus! {

/// Conservation: in every well-formed book, neither side's promised
/// payout exceeds the dealt wager, and the dealt wager never exceeds
/// the total wager collected. Every operation of the book preserves
/// well-formedness, so this holds after any sequence of placements and
/// matching steps.
pub proof fn lemma_collateral_conservation(b: Book)
    requires
        b.wf(),
    ensures
        b.payout_for_total <= b.dealt_wager,
        b.payout_against_total <= b.dealt_wager,
        b.dealt_wager <= b.wager_total,
{
    crate::sums::lemma_map_sum_bounds(b.bets_for@, crate::book::bet_wager_fn());
    assert(forall|j: int|
        0 <= j < b.bets_for@.len() ==> crate::book::bet_wager_fn()(
            #[trigger] b.bets_for@[j],
        ) >= 0);
    crate::sums::lemma_map_sum_bounds(b.bets_for@, crate::book::bet_wager_fn());
    assert(forall|j: int|
        0 <= j < b.bets_against@.len() ==> crate::book::bet_wager_fn()(
            #[trigger] b.bets_against@[j],
        ) >= 0);
    crate::sums::lemma_map_sum_bounds(b.bets_against@, crate::book::bet_wager_fn());
}

/// No orphan zero bets: in every well-formed book, no queued bet has a
/// zero remaining wager. Matching removes a bet the moment its wager is
/// exhausted, and every operation preserves well-formedness.
pub proof fn lemma_no_zero_wager_bets(b: Book)
    requires
        b.wf(),
    ensures
        forall|i: int| 0 <= i < b.bets_for@.len() ==> (#[trigger] b.bets_for@[i]).wager > 0,
        forall|i: int|
            0 <= i < b.bets_against@.len() ==> (#[trigger] b.bets_against@[i]).wager > 0,
{
}

/// Matching terminates: every step that reports progress strictly
/// decreases a finite measure of the book — it either removes a bet
/// from a queue or restores balance between the two payout totals — so
/// driving the one-step matcher until it reports no progress always
/// halts. The driver loop's own termination is checked against this
/// same measure.
pub proof fn lemma_matching_terminates(pre: Book, post: Book)
    requires
        crate::matching::match_step(pre, post, true),
    ensures
        crate::matching::match_measure(post) < crate::matching::match_measure(pre),
        crate::matching::match_measure(post) >= 0,
{
}

/// What one position is owed at settlement, as a function of the final
/// outcome and of whether the dispute overturned the oracles.
pub open spec fn bettor_settle_fn(oc: BetOutcome, refund: bool) -> spec_fn(Position) -> int {
    |p: Position|
        (match oc {
            BetOutcome::For => (p.payout_for * BETTOR_PAYOUT_RATE) / (RATE_SCALE as int) + (
            p.wager - p.dealt_wager),
            BetOutcome::Cancel => p.wager as int,
            BetOutcome::Against => (p.payout_against * BETTOR_PAYOUT_RATE) / (RATE_SCALE as int)
                + (p.wager - p.dealt_wager),
        }) + (if refund {
            p.dispute_stake as int
        } else {
            0int
        })
}

/// Everything all bettors together are owed at settlement.
pub open spec fn bettors_entitlement(b: Book) -> int {
    pos_sum(
        b.positions@,
        bettor_settle_fn(
            final_outcome_of(b).unwrap(),
            final_outcome_of(b) != live_oracle_outcome(b),
        ),
    )
}

/// What one oracle entry is owed at settlement.
pub open spec fn oracle_entitle_fn(fo: Option<BetOutcome>, pool: int, os: int) -> spec_fn(
    (AccountId, Oracle),
) -> int {
    |e: (AccountId, Oracle)|
        if e.1.outcome == fo {
            e.1.stake + (e.1.stake * pool) / os
        } else {
            0int
        }
}

/// Everything all oracles together are owed at settlement.
pub open spec fn oracles_entitlement(b: Book) -> int {
    sum_int(
        b.oracles@.map_values(
            oracle_entitle_fn(
                stored_final_outcome(b),
                oracle_reward_pool(b),
                b.total_oracle_stake as int,
            ),
        ),
    )
}

/// Each entitlement spec matches the amount the settlement operations
/// actually pay.
pub proof fn lemma_entitlements_match_settlement(b: Book, who: AccountId)
    requires
        b.wf(),
        final_outcome_of(b).is_some(),
    ensures
        kv_has(b.positions@, who) ==> bettor_settle_fn(
            final_outcome_of(b).unwrap(),
            final_outcome_of(b) != live_oracle_outcome(b),
        )(kv_get(b.positions@, who)) == bettor_settlement_amount(b, who),
        kv_has(b.oracles@, who) ==> oracle_entitle_fn(
            stored_final_outcome(b),
            oracle_reward_pool(b),
            b.total_oracle_stake as int,
        )((who, kv_get(b.oracles@, who))) == oracle_settlement_amount(b, who),
{
    if kv_has(b.oracles@, who) {
        let o = kv_get(b.oracles@, who);
        vstd::arithmetic::mul::lemma_mul_is_commutative(o.stake as int, oracle_reward_pool(b));
    }
}

/// The haircut, the oracle reward pool and the initiator reward are
/// carved out of the dealt wager and never together exceed it.
proof fn lemma_profit_splits(d: int)
    requires
        d >= 0,
    ensures
        (d * BETTOR_PAYOUT_RATE) / (RATE_SCALE as int) + (((d * (RATE_SCALE - BETTOR_PAYOUT_RATE))
            / (RATE_SCALE as int)) * ORACLES_REWARD_SHARE) / (RATE_SCALE as int) + (((d
            * (RATE_SCALE - BETTOR_PAYOUT_RATE)) / (RATE_SCALE as int)) * INITIATOR_REWARD_SHARE)
            / (RATE_SCALE as int) <= d,
{
    let t1 = (d * 9900) / 10000;
    let p = (d * 100) / 10000;
    let t2 = (p * 6000) / 10000;
    let t3 = (p * 2000) / 10000;
    vstd::arithmetic::div_mod::lemma_fundamental_div_mod(d * 9900, 10000);
    vstd::arithmetic::div_mod::lemma_mod_division_less_than_divisor(d * 9900, 10000);
    vstd::arithmetic::div_mod::lemma_fundamental_div_mod(d * 100, 10000);
    vstd::arithmetic::div_mod::lemma_mod_division_less_than_divisor(d * 100, 10000);
    vstd::arithmetic::div_mod::lemma_fundamental_div_mod(p * 6000, 10000);
    vstd::arithmetic::div_mod::lemma_mod_division_less_than_divisor(p * 6000, 10000);
    vstd::arithmetic::div_mod::lemma_fundamental_div_mod(p * 2000, 10000);
    vstd::arithmetic::div_mod::lemma_mod_division_less_than_divisor(p * 2000, 10000);
    assert(t1 + t2 + t3 <= d) by (nonlinear_arith)
        requires
            d >= 0,
            10000 * t1 <= d * 9900,
            10000 * p <= d * 100,
            10000 * t2 <= p * 6000,
            10000 * t3 <= p * 2000,
            d * 9900 < 10000 * t1 + 10000,
    ;
}

/// All bettor entitlements together stay within the winning side's
/// haircut payout, the undealt remainder of all wagers, and the whole
/// dispute pool.
proof fn lemma_bettors_entitlement_bound(b: Book)
    requires
        b.wf(),
        final_outcome_of(b).is_some(),
    ensures
        bettors_entitlement(b) <= (match final_outcome_of(b).unwrap() {
            BetOutcome::For => (pos_sum(b.positions@, pos_payout_for_fn()) * BETTOR_PAYOUT_RATE)
                / (RATE_SCALE as int),
            BetOutcome::Cancel => 0int,
            BetOutcome::Against => (pos_sum(b.positions@, pos_payout_against_fn())
                * BETTOR_PAYOUT_RATE) / (RATE_SCALE as int),
        }) + pos_sum(b.positions@, pos_wager_fn()) - (match final_outcome_of(b).unwrap() {
            BetOutcome::Cancel => 0int,
            _ => pos_sum(b.positions@, pos_dealt_fn()),
        }) + pos_sum(b.positions@, pos_dispute_fn()),
{
    let s = b.positions@;
    let oc = final_outcome_of(b).unwrap();
    let refund = final_outcome_of(b) != live_oracle_outcome(b);
    let h = entry_fn(bettor_settle_fn(oc, refund));
    let pay_part = match oc {
        BetOutcome::For => |e: (AccountId, Position)| (e.1.payout_for * BETTOR_PAYOUT_RATE) / (
        RATE_SCALE as int),
        BetOutcome::Cancel => |e: (AccountId, Position)| 0int,
        BetOutcome::Against => |e: (AccountId, Position)| (e.1.payout_against
            * BETTOR_PAYOUT_RATE) / (RATE_SCALE as int),
    };
    let refund_part = match oc {
        BetOutcome::Cancel => |e: (AccountId, Position)| e.1.wager + e.1.dispute_stake,
        _ => |e: (AccountId, Position)| e.1.wager - e.1.dealt_wager + e.1.dispute_stake,
    };
    let g = |e: (AccountId, Position)| pay_part(e) + refund_part(e);
    assert forall|j: int| 0 <= j < s.len() implies h(#[trigger] s[j]) <= g(s[j]) by {
        assert(pay_part(s[j]) >= 0) by {
            vstd::arithmetic::mul::lemma_mul_nonnegative(
                s[j].1.payout_for as int,
                BETTOR_PAYOUT_RATE as int,
            );
            vstd::arithmetic::mul::lemma_mul_nonnegative(
                s[j].1.payout_against as int,
                BETTOR_PAYOUT_RATE as int,
            );
            vstd::arithmetic::div_mod::lemma_div_pos_is_pos(
                s[j].1.payout_for * BETTOR_PAYOUT_RATE,
                RATE_SCALE as int,
            );
            vstd::arithmetic::div_mod::lemma_div_pos_is_pos(
                s[j].1.payout_against * BETTOR_PAYOUT_RATE,
                RATE_SCALE as int,
            );
        }
    }
    lemma_map_sum_mono(s, h, g);
    lemma_map_sum_add_pointwise(s, pay_part, refund_part, g);
    // the refund part splits into the accounted sums
    match oc {
        BetOutcome::Cancel => {
            lemma_map_sum_add_pointwise(
                s,
                entry_fn(pos_wager_fn()),
                entry_fn(pos_dispute_fn()),
                refund_part,
            );
        },
        _ => {
            let negdealt = |e: (AccountId, Position)| -(e.1.dealt_wager as int);
            let wd = |e: (AccountId, Position)| e.1.wager - e.1.dealt_wager;
            lemma_map_sum_add_pointwise(s, wd, entry_fn(pos_dispute_fn()), refund_part);
            lemma_map_sum_add_pointwise(s, entry_fn(pos_wager_fn()), negdealt, wd);
            let zero = |e: (AccountId, Position)| 0int;
            lemma_map_sum_add_pointwise(s, entry_fn(pos_dealt_fn()), negdealt, zero);
            lemma_map_sum_zero(s, zero);
        },
    }
    // the haircut part is bounded by the haircut of the summed payouts
    match oc {
        BetOutcome::For => {
            let pf = s.map_values(entry_fn(pos_payout_for_fn()));
            assert(forall|j: int| 0 <= j < pf.len() ==> pf[j] >= 0) by {
                assert(forall|j: int|
                    0 <= j < s.len() ==> entry_fn(pos_payout_for_fn())(#[trigger] s[j]) >= 0);
            }
            lemma_sum_of_fractions_le(pf, BETTOR_PAYOUT_RATE as int, RATE_SCALE as int);
            assert(pf.map_values(
                |x: int| (x * (BETTOR_PAYOUT_RATE as int)) / (RATE_SCALE as int),
            ) =~= s.map_values(pay_part));
        },
        BetOutcome::Cancel => {
            lemma_map_sum_zero(s, pay_part);
        },
        BetOutcome::Against => {
            let pa = s.map_values(entry_fn(pos_payout_against_fn()));
            assert(forall|j: int| 0 <= j < pa.len() ==> pa[j] >= 0) by {
                assert(forall|j: int|
                    0 <= j < s.len() ==> entry_fn(pos_payout_against_fn())(#[trigger] s[j]) >= 0);
            }
            lemma_sum_of_fractions_le(pa, BETTOR_PAYOUT_RATE as int, RATE_SCALE as int);
            assert(pa.map_values(
                |x: int| (x * (BETTOR_PAYOUT_RATE as int)) / (RATE_SCALE as int),
            ) =~= s.map_values(pay_part));
        },
    }
}

/// All oracle entitlements together stay within the registered stakes
/// plus the oracle reward pool.
proof fn lemma_oracles_entitlement_bound(b: Book)
    requires
        b.wf(),
    ensures
        oracles_entitlement(b) <= oracle_stake_sum(b.oracles@) + oracle_reward_pool(b),
        oracle_reward_pool(b) >= 0,
{
    let s = b.oracles@;
    let pool = oracle_reward_pool(b);
    let os = b.total_oracle_stake as int;
    assert(total_profit_of(b) >= 0) by {
        vstd::arithmetic::mul::lemma_mul_nonnegative(
            b.dealt_wager as int,
            (RATE_SCALE - BETTOR_PAYOUT_RATE) as int,
        );
        vstd::arithmetic::div_mod::lemma_div_pos_is_pos(
            b.dealt_wager * (RATE_SCALE - BETTOR_PAYOUT_RATE),
            RATE_SCALE as int,
        );
    }
    assert(pool >= 0) by {
        vstd::arithmetic::mul::lemma_mul_nonnegative(
            total_profit_of(b),
            ORACLES_REWARD_SHARE as int,
        );
        vstd::arithmetic::div_mod::lemma_div_pos_is_pos(
            total_profit_of(b) * ORACLES_REWARD_SHARE,
            RATE_SCALE as int,
        );
    }
    let h = oracle_entitle_fn(stored_final_outcome(b), pool, os);
    if s.len() == 0 {
        assert(s.map_values(h) =~= Seq::<int>::empty());
        assert(s.map_values(oracle_stake_fn()) =~= Seq::<int>::empty());
    } else {
        assert(os > 0) by {
            assert(forall|j: int|
                0 <= j < s.len() ==> oracle_stake_fn()(#[trigger] s[j]) >= 0);
            lemma_map_sum_bounds(s, oracle_stake_fn());
            assert(oracle_stake_fn()(s[0]) == s[0].1.stake as int);
            assert(s[0].1.stake > 0);
        }
        let fracs = |e: (AccountId, Oracle)| (e.1.stake * pool) / os;
        let g = |e: (AccountId, Oracle)| e.1.stake + (e.1.stake * pool) / os;
        assert forall|j: int| 0 <= j < s.len() implies h(#[trigger] s[j]) <= g(s[j]) by {
            vstd::arithmetic::mul::lemma_mul_nonnegative(s[j].1.stake as int, pool);
            vstd::arithmetic::div_mod::lemma_div_pos_is_pos(s[j].1.stake * pool, os);
        }
        lemma_map_sum_mono(s, h, g);
        lemma_map_sum_add_pointwise(s, oracle_stake_fn(), fracs, g);
        let stakes = s.map_values(oracle_stake_fn());
        assert(forall|j: int| 0 <= j < stakes.len() ==> stakes[j] >= 0) by {
            assert(forall|j: int| 0 <= j < s.len() ==> oracle_stake_fn()(#[trigger] s[j]) >= 0);
        }
        lemma_sum_of_fractions_le(stakes, pool, os);
        assert(stakes.map_values(|x: int| (x * pool) / os) =~= s.map_values(fracs));
        assert((sum_int(stakes) * pool) / os <= pool) by {
            assert(sum_int(stakes) == oracle_stake_sum(s));
            assert(oracle_stake_sum(s) <= os);
            vstd::arithmetic::mul::lemma_mul_inequality(oracle_stake_sum(s), os, pool);
            vstd::arithmetic::div_mod::lemma_div_is_ordered(
                oracle_stake_sum(s) * pool,
                os * pool,
                os,
            );
            vstd::arithmetic::div_mod::lemma_div_multiples_vanish(pool, os);
            assert(os * pool == pool * os) by (nonlinear_arith);
        }
    }
}

/// Settlement conservation: for a concluded, fully accounted book whose
/// consensus snapshot is current, everything owed to bettors, oracles
/// and the initiator fits within the book's collected balance — all
/// wagers, oracle stakes and dispute stakes — so the operator's final
/// sweep receives exactly the nonnegative remainder and no funds are
/// created or destroyed. A cancelled market with realized matched
/// profit is the one shape this cannot cover: there every wager is
/// refunded in full, yet profit-based rewards are still promised.
pub proof fn lemma_settlement_conservation(b: Book)
    requires
        b.wf(),
        fully_accounted(b),
        b.aggregated_oracle_outcome == live_oracle_outcome(b),
        final_outcome_of(b).is_some(),
        final_outcome_of(b) == Some(BetOutcome::For) || final_outcome_of(b) == Some(
            BetOutcome::Against,
        ) || total_profit_of(b) == 0,
    ensures
        bettors_entitlement(b) + oracles_entitlement(b) + initiator_reward_of(b) <= b.wager_total
            + b.total_oracle_stake + b.total_dispute_stake,
{
    lemma_bettors_entitlement_bound(b);
    lemma_oracles_entitlement_bound(b);
    lemma_profit_splits(b.dealt_wager as int);
    assert(initiator_reward_of(b) >= 0) by {
        vstd::arithmetic::mul::lemma_mul_nonnegative(
            total_profit_of(b),
            INITIATOR_REWARD_SHARE as int,
        );
        vstd::arithmetic::div_mod::lemma_div_pos_is_pos(
            total_profit_of(b) * INITIATOR_REWARD_SHARE,
            RATE_SCALE as int,
        );
        vstd::arithmetic::mul::lemma_mul_nonnegative(
            b.dealt_wager as int,
            (RATE_SCALE - BETTOR_PAYOUT_RATE) as int,
        );
        vstd::arithmetic::div_mod::lemma_div_pos_is_pos(
            b.dealt_wager * (RATE_SCALE - BETTOR_PAYOUT_RATE),
            RATE_SCALE as int,
        );
    }
    match final_outcome_of(b).unwrap() {
        BetOutcome::For => {
            assert((pos_sum(b.positions@, pos_payout_for_fn()) * BETTOR_PAYOUT_RATE) / (
            RATE_SCALE as int) <= (b.dealt_wager * BETTOR_PAYOUT_RATE) / (RATE_SCALE as int)) by {
                vstd::arithmetic::mul::lemma_mul_inequality(
                    pos_sum(b.positions@, pos_payout_for_fn()),
                    b.dealt_wager as int,
                    BETTOR_PAYOUT_RATE as int,
                );
                vstd::arithmetic::div_mod::lemma_div_is_ordered(
                    pos_sum(b.positions@, pos_payout_for_fn()) * BETTOR_PAYOUT_RATE,
                    b.dealt_wager * BETTOR_PAYOUT_RATE,
                    RATE_SCALE as int,
                );
            }
        },
        BetOutcome::Against => {
            assert((pos_sum(b.positions@, pos_payout_against_fn()) * BETTOR_PAYOUT_RATE) / (
            RATE_SCALE as int) <= (b.dealt_wager * BETTOR_PAYOUT_RATE) / (RATE_SCALE as int)) by {
                vstd::arithmetic::mul::lemma_mul_inequality(
                    pos_sum(b.positions@, pos_payout_against_fn()),
                    b.dealt_wager as int,
                    BETTOR_PAYOUT_RATE as int,
                );
                vstd::arithmetic::div_mod::lemma_div_is_ordered(
                    pos_sum(b.positions@, pos_payout_against_fn()) * BETTOR_PAYOUT_RATE,
                    b.dealt_wager * BETTOR_PAYOUT_RATE,
                    RATE_SCALE as int,
                );
            }
        },
        BetOutcome::Cancel => {
            assert(oracle_reward_pool(b) == 0) by {
                assert((0int * ORACLES_REWARD_SHARE) == 0) by (nonlinear_arith);
            }
            assert(initiator_reward_of(b) == 0) by {
                assert((0int * INITIATOR_REWARD_SHARE) == 0) by (nonlinear_arith);
            }
        },
    }
}

} // verus!
