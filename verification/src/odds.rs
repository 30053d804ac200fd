//! Fixed-point decimal-odds arithmetic.
//!
//! An odds value `o` is a payout multiplier with three implied decimal
//! digits: a bet of `w` at odds `o` promises a payout of
//! `floor(w * o / 1000)`. Payout amounts are floored and
//! wager-for-payout amounts are ceiled, so fills are always
//! conservative: a matched payout is never larger than the collateral
//! that backs it.

use vstd::prelude::*;
use vstd::arithmetic::div_mod::{lemma_fundamental_div_mod, lemma_div_is_ordered};
use vstd::arithmetic::mul::lemma_mul_upper_bound;

verus! {

/// Payout promised by a wager of `wager` at odds `odds`: the product
/// scaled down by the odds unit, rounded towards zero.
pub open spec fn payout_amount(odds: int, wager: int) -> int {
    (wager * odds) / 1000
}

/// Wager that must be consumed at odds `odds` to produce a payout of
/// `payout`, rounded up so the producing side never under-covers.
pub open spec fn wager_for_payout(odds: int, payout: int) -> int
    recommends
        odds >= 1,
{
    (payout * 1000 + odds - 1) / odds
}

/// Whether the head of the `for` queue, priced at `for_odds`, is willing
/// to trade against the head of the `against` queue, priced at
/// `against_odds`. The against-bet's complementary price is
/// `1 / (against_odds - 1) + 1` in multiplier terms; the for-price must
/// not exceed it. Both sides of that comparison are scaled to integers,
/// so the test is exact.
pub open spec fn prices_cross(for_odds: int, against_odds: int) -> bool {
    if against_odds >= 1000 {
        (for_odds - 1000) * (against_odds - 1000) <= 1000000
    } else {
        (1000 - for_odds) * (1000 - against_odds) >= 1000000
    }
}

/// Exact executable form of `payout_amount`.
pub fn payout_by_wager(odds: u32, wager: u64) -> (r: u64)
    requires
        payout_amount(odds as int, wager as int) <= u64::MAX,
    ensures
        r == payout_amount(odds as int, wager as int),
{
    proof {
        lemma_mul_upper_bound(wager as int, u64::MAX as int, odds as int, u32::MAX as int);
    }
    let p: u128 = (wager as u128) * (odds as u128) / 1000;
    p as u64
}

/// Exact executable form of `wager_for_payout`.
pub fn wager_by_payout(odds: u32, payout: u64) -> (r: u64)
    requires
        odds >= 1,
        wager_for_payout(odds as int, payout as int) <= u64::MAX,
    ensures
        r == wager_for_payout(odds as int, payout as int),
{
    proof {
        lemma_mul_upper_bound(payout as int, u64::MAX as int, 1000, 1000);
    }
    let w: u128 = ((payout as u128) * 1000 + (odds as u128) - 1) / (odds as u128);
    w as u64
}

/// `payout_amount`, computed without any width restriction so callers
/// can test its size before narrowing.
pub fn payout_u128(odds: u32, wager: u64) -> (r: u128)
    ensures
        r == payout_amount(odds as int, wager as int),
{
    proof {
        lemma_mul_upper_bound(wager as int, u64::MAX as int, odds as int, u32::MAX as int);
    }
    (wager as u128) * (odds as u128) / 1000
}

/// `wager_for_payout`, computed without any width restriction.
pub fn wager_for_u128(odds: u32, payout: u64) -> (r: u128)
    requires
        odds >= 1,
    ensures
        r == wager_for_payout(odds as int, payout as int),
{
    proof {
        lemma_mul_upper_bound(payout as int, u64::MAX as int, 1000, 1000);
    }
    ((payout as u128) * 1000 + (odds as u128) - 1) / (odds as u128)
}

/// Exact executable form of `prices_cross`.
pub fn prices_do_cross(for_odds: u32, against_odds: u32) -> (r: bool)
    ensures
        r == prices_cross(for_odds as int, against_odds as int),
{
    if against_odds >= 1000 {
        if for_odds <= 1000 {
            proof {
                assert((for_odds as int - 1000) * (against_odds as int - 1000) <= 0)
                    by (nonlinear_arith)
                    requires
                        for_odds <= 1000,
                        against_odds >= 1000,
                ;
            }
            true
        } else {
            proof {
                lemma_mul_upper_bound(
                    for_odds - 1000,
                    u32::MAX as int,
                    against_odds - 1000,
                    u32::MAX as int,
                );
            }
            let lhs: u64 = ((for_odds - 1000) as u64) * ((against_odds - 1000) as u64);
            lhs <= 1000000
        }
    } else {
        if for_odds >= 1000 {
            proof {
                assert((1000 - for_odds as int) * (1000 - against_odds as int) <= 0)
                    by (nonlinear_arith)
                    requires
                        for_odds >= 1000,
                        against_odds < 1000,
                ;
            }
            false
        } else {
            proof {
                lemma_mul_upper_bound(1000 - for_odds, 1000, 1000 - against_odds, 1000);
            }
            let lhs: u64 = ((1000 - for_odds) as u64) * ((1000 - against_odds) as u64);
            lhs >= 1000000
        }
    }
}

/// Below one whole unit, a positive bet's payout is strictly below its
/// wager; so a payout at least the wager pins the odds at or above the
/// unit.
pub proof fn lemma_payout_ge_wager_converse(odds: int, wager: int)
    requires
        odds >= 0,
        wager > 0,
        payout_amount(odds, wager) >= wager,
    ensures
        odds >= 1000,
{
    if odds < 1000 {
        assert(wager * odds <= wager * 999) by (nonlinear_arith)
            requires
                odds <= 999,
                wager >= 0,
        ;
        assert((wager * 999) / 1000 < wager) by (nonlinear_arith)
            requires
                wager > 0,
        ;
        lemma_div_is_ordered(wager * odds, wager * 999, 1000);
    }
}

/// The payout never exceeds wager-times-odds; in particular it fits
/// wherever that product fits.
pub proof fn lemma_payout_upper(odds: int, wager: int)
    requires
        odds >= 0,
        wager >= 0,
    ensures
        0 <= payout_amount(odds, wager),
        payout_amount(odds, wager) <= wager * odds,
{
    vstd::arithmetic::mul::lemma_mul_nonnegative(wager, odds);
    vstd::arithmetic::div_mod::lemma_div_pos_is_pos(wager * odds, 1000);
    vstd::arithmetic::div_mod::lemma_div_nonincreasing(wager * odds, 1000);
}

/// Key conservation fact of a balanced match. The side whose whole
/// payout `P` drives the deal gives up its wager `w` and draws `P - w`
/// from the opposing bet; the opposing bet earns its own payout on those
/// `P - w` units at its own odds. When the two prices cross, that earned
/// counter-payout never exceeds `P`, so neither side's promised payout
/// outruns the collateral the deal locked in.
pub proof fn lemma_counter_payout_le(big_odds: int, small_odds: int, wager: int)
    requires
        wager >= 0,
        big_odds >= 1000,
        small_odds >= 0,
        (big_odds - 1000) * (small_odds - 1000) <= 1000000,
        payout_amount(big_odds, wager) >= wager,
    ensures
        payout_amount(small_odds, payout_amount(big_odds, wager) - wager)
            <= payout_amount(big_odds, wager),
{
    let p = payout_amount(big_odds, wager);
    let x = p - wager;
    lemma_fundamental_div_mod(wager * big_odds, 1000);
    vstd::arithmetic::div_mod::lemma_mod_division_less_than_divisor(wager * big_odds, 1000);
    assert(1000 * p <= wager * big_odds);
    assert(x * small_odds <= 1000 * p) by (nonlinear_arith)
        requires
            x == p - wager,
            x >= 0,
            wager >= 0,
            p >= 0,
            small_odds >= 0,
            big_odds >= 1000,
            1000 * p <= wager * big_odds,
            (big_odds - 1000) * (small_odds - 1000) <= 1000000,
    ;
    lemma_div_is_ordered(x * small_odds, 1000 * p, 1000);
    assert((1000 * p) / 1000 == p) by (nonlinear_arith);
}

/// Producing a positive payout consumes at least one unit of wager.
pub proof fn lemma_wager_for_payout_pos(odds: int, payout: int)
    requires
        odds >= 1,
        payout >= 1,
    ensures
        wager_for_payout(odds, payout) >= 1,
{
    vstd::arithmetic::div_mod::lemma_div_multiples_vanish(1, odds);
    assert(payout * 1000 + odds - 1 >= 1 * odds) by (nonlinear_arith)
        requires
            odds >= 1,
            payout >= 1,
    ;
    lemma_div_is_ordered(1 * odds, payout * 1000 + odds - 1, odds);
}

/// The wager consumed to cover a payout indeed produces at least that
/// payout at the same odds: ceiling then flooring cannot under-cover.
pub proof fn lemma_backstop_covers(odds: int, payout: int)
    requires
        odds >= 1,
        payout >= 0,
    ensures
        payout_amount(odds, wager_for_payout(odds, payout)) >= payout,
{
    let w = wager_for_payout(odds, payout);
    lemma_fundamental_div_mod(payout * 1000 + odds - 1, odds);
    vstd::arithmetic::div_mod::lemma_mod_division_less_than_divisor(
        payout * 1000 + odds - 1,
        odds,
    );
    assert(w * odds >= payout * 1000) by (nonlinear_arith)
        requires
            odds >= 1,
            payout >= 0,
            payout * 1000 + odds - 1 == w * odds + (payout * 1000 + odds - 1) % odds,
            0 <= (payout * 1000 + odds - 1) % odds < odds,
    ;
    lemma_div_is_ordered(payout * 1000, w * odds, 1000);
    assert((payout * 1000) / 1000 == payout) by (nonlinear_arith);
}

} // verus!
