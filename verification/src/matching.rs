//! One-step bet matching.
//!
//! `Book::match_bets` performs at most one matched (or backstopped)
//! unit of liquidity and reports whether anything changed; the caller
//! drives it in a loop until it reports no progress. Every step keeps
//! the book's collateral conservation intact: neither side's promised
//! payout ever exceeds the dealt wager, and the dealt wager never
//! exceeds the total wager collected.

use vstd::prelude::*;
use crate::book::{
    AccountId, Bet, Book, Position, id_odds, queue_wf, queue_wager_sum, bettor_count,
    bettor_wager_sum, bet_wager_fn, bet_count_fn, bet_of_fn, pos_wager_fn, pos_dealt_fn,
    pos_payout_for_fn, pos_payout_against_fn, pos_dispute_fn, entry_fn, position_wf,
    position_filled_for, position_filled_against, identity_eq, oracle_state_eq, dispute_state_eq,
    lemma_position_bounds,
};
use crate::kv::{kv_has, kv_idx, kv_get, kv_find, lemma_kv_idx_unique, lemma_kv_update};
use crate::odds::{
    payout_amount, wager_for_payout, prices_cross, payout_u128, wager_for_u128, prices_do_cross,
    lemma_payout_ge_wager_converse, lemma_counter_payout_le,
};

verus! {

/// Both queues have a head and their prices cross while the book is
/// balanced: a matched fill is possible.
pub open spec fn balanced_heads_cross(b: Book) -> bool {
    &&& b.payout_for_total == b.payout_against_total
    &&& b.bets_for@.len() > 0
    &&& b.bets_against@.len() > 0
    &&& prices_cross(id_odds(b.bets_for@[0].id), id_odds(b.bets_against@[0].id))
}

/// Full payout promised by the head of the `for` queue.
pub open spec fn for_full_payout(b: Book) -> int {
    payout_amount(id_odds(b.bets_for@[0].id), b.bets_for@[0].wager as int)
}

/// Full payout promised by the head of the `against` queue.
pub open spec fn against_full_payout(b: Book) -> int {
    payout_amount(id_odds(b.bets_against@[0].id), b.bets_against@[0].wager as int)
}

/// A balanced fill driven by the `for` head: its whole payout is locked
/// in, funded by its own wager plus `x` drawn from the `against` head,
/// which earns its own payout `y` on those `x` units.
pub open spec fn filled_for_drive(pre: Book, post: Book) -> bool {
    let bf = pre.bets_for@[0];
    let ba = pre.bets_against@[0];
    let p = for_full_payout(pre);
    let x = p - bf.wager;
    let y = payout_amount(id_odds(ba.id), x);
    let consumed_a = x == ba.wager;
    let s1 = pre.positions@.update(
        kv_idx(pre.positions@, bf.bettor),
        (
            bf.bettor,
            position_filled_for(kv_get(pre.positions@, bf.bettor), p, bf.wager as int, true),
        ),
    );
    &&& post.bets_for@ == pre.bets_for@.remove(0)
    &&& post.bets_against@ == (if consumed_a {
        pre.bets_against@.remove(0)
    } else {
        pre.bets_against@.update(0, Bet { wager: (ba.wager - x) as u64, ..ba })
    })
    &&& post.positions@ == s1.update(
        kv_idx(s1, ba.bettor),
        (ba.bettor, position_filled_against(kv_get(s1, ba.bettor), y, x, consumed_a)),
    )
    &&& post.payout_for_total == pre.payout_for_total + p
    &&& post.payout_against_total == pre.payout_against_total + y
    &&& post.dealt_wager == pre.dealt_wager + p
    &&& post.wager_total == pre.wager_total
    &&& post.bets_count == pre.bets_count
    &&& identity_eq(pre, post)
    &&& oracle_state_eq(pre, post)
    &&& dispute_state_eq(pre, post)
}

/// A balanced fill driven by the `against` head, symmetric to
/// `filled_for_drive`.
pub open spec fn filled_against_drive(pre: Book, post: Book) -> bool {
    let bf = pre.bets_for@[0];
    let ba = pre.bets_against@[0];
    let p = against_full_payout(pre);
    let x = p - ba.wager;
    let y = payout_amount(id_odds(bf.id), x);
    let consumed_f = x == bf.wager;
    let s1 = pre.positions@.update(
        kv_idx(pre.positions@, ba.bettor),
        (
            ba.bettor,
            position_filled_against(kv_get(pre.positions@, ba.bettor), p, ba.wager as int, true),
        ),
    );
    &&& post.bets_against@ == pre.bets_against@.remove(0)
    &&& post.bets_for@ == (if consumed_f {
        pre.bets_for@.remove(0)
    } else {
        pre.bets_for@.update(0, Bet { wager: (bf.wager - x) as u64, ..bf })
    })
    &&& post.positions@ == s1.update(
        kv_idx(s1, bf.bettor),
        (bf.bettor, position_filled_for(kv_get(s1, bf.bettor), y, x, consumed_f)),
    )
    &&& post.payout_against_total == pre.payout_against_total + p
    &&& post.payout_for_total == pre.payout_for_total + y
    &&& post.dealt_wager == pre.dealt_wager + p
    &&& post.wager_total == pre.wager_total
    &&& post.bets_count == pre.bets_count
    &&& identity_eq(pre, post)
    &&& oracle_state_eq(pre, post)
    &&& dispute_state_eq(pre, post)
}

/// The `against` head absorbs the whole for-side over-exposure as
/// mandatory backstop liquidity, regardless of its own price.
pub open spec fn backstop_against(pre: Book, post: Book) -> bool {
    let ba = pre.bets_against@[0];
    let diff = pre.payout_for_total - pre.payout_against_total;
    let dw = wager_for_payout(id_odds(ba.id), diff);
    let consumed = dw == ba.wager;
    &&& post.bets_against@ == (if consumed {
        pre.bets_against@.remove(0)
    } else {
        pre.bets_against@.update(0, Bet { wager: (ba.wager - dw) as u64, ..ba })
    })
    &&& post.bets_for@ == pre.bets_for@
    &&& post.positions@ == pre.positions@.update(
        kv_idx(pre.positions@, ba.bettor),
        (
            ba.bettor,
            position_filled_against(kv_get(pre.positions@, ba.bettor), diff, dw, consumed),
        ),
    )
    &&& post.payout_against_total == pre.payout_for_total
    &&& post.payout_for_total == pre.payout_for_total
    &&& post.dealt_wager == pre.dealt_wager + dw
    &&& post.wager_total == pre.wager_total
    &&& post.bets_count == pre.bets_count
    &&& identity_eq(pre, post)
    &&& oracle_state_eq(pre, post)
    &&& dispute_state_eq(pre, post)
}

/// The `for` head absorbs the whole against-side over-exposure.
pub open spec fn backstop_for(pre: Book, post: Book) -> bool {
    let bf = pre.bets_for@[0];
    let diff = pre.payout_against_total - pre.payout_for_total;
    let dw = wager_for_payout(id_odds(bf.id), diff);
    let consumed = dw == bf.wager;
    &&& post.bets_for@ == (if consumed {
        pre.bets_for@.remove(0)
    } else {
        pre.bets_for@.update(0, Bet { wager: (bf.wager - dw) as u64, ..bf })
    })
    &&& post.bets_against@ == pre.bets_against@
    &&& post.positions@ == pre.positions@.update(
        kv_idx(pre.positions@, bf.bettor),
        (bf.bettor, position_filled_for(kv_get(pre.positions@, bf.bettor), diff, dw, consumed)),
    )
    &&& post.payout_for_total == pre.payout_against_total
    &&& post.payout_against_total == pre.payout_against_total
    &&& post.dealt_wager == pre.dealt_wager + dw
    &&& post.wager_total == pre.wager_total
    &&& post.bets_count == pre.bets_count
    &&& identity_eq(pre, post)
    &&& oracle_state_eq(pre, post)
    &&& dispute_state_eq(pre, post)
}

/// Exactly what one matching step does, for every starting state. Where
/// the step would need arithmetic the state cannot support (a payout
/// below the driving bet's own wager, or a backstop whose remaining
/// wager cannot cover the shortfall at its odds), it reports no
/// progress and leaves the book unchanged.
pub open spec fn match_step(pre: Book, post: Book, progressed: bool) -> bool {
    if !(pre.dealt_wager >= pre.payout_for_total && pre.dealt_wager >= pre.payout_against_total) {
        !progressed && post == pre
    } else if pre.payout_for_total == pre.payout_against_total {
        if balanced_heads_cross(pre) {
            let bf = pre.bets_for@[0];
            let ba = pre.bets_against@[0];
            if for_full_payout(pre) <= ba.wager + bf.wager {
                if for_full_payout(pre) >= bf.wager {
                    progressed && filled_for_drive(pre, post)
                } else {
                    !progressed && post == pre
                }
            } else if against_full_payout(pre) <= bf.wager + ba.wager {
                if against_full_payout(pre) >= ba.wager {
                    progressed && filled_against_drive(pre, post)
                } else {
                    !progressed && post == pre
                }
            } else {
                !progressed && post == pre
            }
        } else {
            !progressed && post == pre
        }
    } else if pre.payout_for_total > pre.payout_against_total {
        if pre.bets_against@.len() > 0 {
            let ba = pre.bets_against@[0];
            let diff = pre.payout_for_total - pre.payout_against_total;
            if id_odds(ba.id) >= 1 && wager_for_payout(id_odds(ba.id), diff) <= ba.wager {
                progressed && backstop_against(pre, post)
            } else {
                !progressed && post == pre
            }
        } else {
            !progressed && post == pre
        }
    } else {
        if pre.bets_for@.len() > 0 {
            let bf = pre.bets_for@[0];
            let diff = pre.payout_against_total - pre.payout_for_total;
            if id_odds(bf.id) >= 1 && wager_for_payout(id_odds(bf.id), diff) <= bf.wager {
                progressed && backstop_for(pre, post)
            } else {
                !progressed && post == pre
            }
        } else {
            !progressed && post == pre
        }
    }
}

/// Whether one matching step can make progress from this state: the
/// guard structure of `match_step`, collapsed to a predicate.
pub open spec fn match_can_progress(b: Book) -> bool {
    &&& b.dealt_wager >= b.payout_for_total
    &&& b.dealt_wager >= b.payout_against_total
    &&& if b.payout_for_total == b.payout_against_total {
        &&& balanced_heads_cross(b)
        &&& ({
            let bf = b.bets_for@[0];
            let ba = b.bets_against@[0];
            if for_full_payout(b) <= ba.wager + bf.wager {
                for_full_payout(b) >= bf.wager
            } else {
                against_full_payout(b) <= bf.wager + ba.wager && against_full_payout(b)
                    >= ba.wager
            }
        })
    } else if b.payout_for_total > b.payout_against_total {
        &&& b.bets_against@.len() > 0
        &&& id_odds(b.bets_against@[0].id) >= 1
        &&& wager_for_payout(
            id_odds(b.bets_against@[0].id),
            b.payout_for_total - b.payout_against_total,
        ) <= b.bets_against@[0].wager
    } else {
        &&& b.bets_for@.len() > 0
        &&& id_odds(b.bets_for@[0].id) >= 1
        &&& wager_for_payout(
            id_odds(b.bets_for@[0].id),
            b.payout_against_total - b.payout_for_total,
        ) <= b.bets_for@[0].wager
    }
}

/// The book `b` is reachable from `a` by exactly `n` progressing
/// matching steps.
pub open spec fn match_steps(a: Book, b: Book, n: nat) -> bool
    decreases n,
{
    if n == 0 {
        a == b
    } else {
        exists|mid: Book| match_step(a, mid, true) && match_steps(mid, b, (n - 1) as nat)
    }
}

/// A chain of progressing steps grows by one at its end.
pub proof fn lemma_match_steps_extend(a: Book, b: Book, c: Book, n: nat)
    requires
        match_steps(a, b, n),
        match_step(b, c, true),
    ensures
        match_steps(a, c, n + 1),
    decreases n,
{
    if n == 0 {
        assert(match_steps(c, c, 0));
        assert(exists|mid: Book| match_step(a, mid, true) && match_steps(mid, c, 0)) by {
            assert(match_step(a, c, true) && match_steps(c, c, 0));
        }
    } else {
        let mid = choose|mid: Book|
            match_step(a, mid, true) && match_steps(mid, b, (n - 1) as nat);
        lemma_match_steps_extend(mid, b, c, (n - 1) as nat);
        assert(exists|m: Book| match_step(a, m, true) && match_steps(m, c, n)) by {
            assert(match_step(a, mid, true) && match_steps(mid, c, n));
        }
    }
}

/// Termination measure of the matching loop: every step that reports
/// progress either removes a bet or restores balance.
pub open spec fn match_measure(b: Book) -> int {
    2 * (b.bets_for@.len() + b.bets_against@.len()) + (
    if b.payout_for_total == b.payout_against_total {
        0int
    } else {
        1int
    })
}

/// Removing the head of a queue: order, positivity and freshness are
/// kept, and every per-bettor sum drops by the head's contribution.
proof fn lemma_queue_remove_head(q: Seq<Bet>, bc: u32)
    requires
        queue_wf(q, bc),
        q.len() > 0,
    ensures
        queue_wf(q.remove(0), bc),
        queue_wager_sum(q.remove(0)) == queue_wager_sum(q) - q[0].wager,
        forall|who: AccountId| #[trigger]
            bettor_count(q.remove(0), who) == bettor_count(q, who) - (if q[0].bettor == who {
                1int
            } else {
                0int
            }),
        forall|who: AccountId| #[trigger]
            bettor_wager_sum(q.remove(0), who) == bettor_wager_sum(q, who) - (
            if q[0].bettor == who {
                q[0].wager as int
            } else {
                0int
            }),
{
    let t = q.remove(0);
    q.remove_ensures(0);
    crate::sums::lemma_map_sum_remove(q, 0, bet_wager_fn());
    assert forall|who: AccountId| #[trigger]
        bettor_count(t, who) == bettor_count(q, who) - (if q[0].bettor == who {
            1int
        } else {
            0int
        }) by {
        crate::sums::lemma_map_sum_remove(q, 0, bet_count_fn(who));
    }
    assert forall|who: AccountId| #[trigger]
        bettor_wager_sum(t, who) == bettor_wager_sum(q, who) - (if q[0].bettor == who {
            q[0].wager as int
        } else {
            0int
        }) by {
        crate::sums::lemma_map_sum_remove(q, 0, bet_of_fn(who));
    }
}

/// Shrinking the head's wager in place: order is untouched, and every
/// per-bettor sum drops by exactly the consumed amount.
proof fn lemma_queue_shrink_head(q: Seq<Bet>, nb: Bet, bc: u32)
    requires
        queue_wf(q, bc),
        q.len() > 0,
        nb.id == q[0].id,
        nb.bettor == q[0].bettor,
        0 < nb.wager <= q[0].wager,
    ensures
        queue_wf(q.update(0, nb), bc),
        queue_wager_sum(q.update(0, nb)) == queue_wager_sum(q) - q[0].wager + nb.wager,
        forall|who: AccountId| #[trigger]
            bettor_count(q.update(0, nb), who) == bettor_count(q, who),
        forall|who: AccountId| #[trigger]
            bettor_wager_sum(q.update(0, nb), who) == bettor_wager_sum(q, who) - (
            if q[0].bettor == who {
                q[0].wager - nb.wager
            } else {
                0int
            }),
{
    let t = q.update(0, nb);
    crate::sums::lemma_map_sum_update(q, 0, nb, bet_wager_fn());
    assert forall|who: AccountId| #[trigger]
        bettor_count(t, who) == bettor_count(q, who) by {
        crate::sums::lemma_map_sum_update(q, 0, nb, bet_count_fn(who));
    }
    assert forall|who: AccountId| #[trigger]
        bettor_wager_sum(t, who) == bettor_wager_sum(q, who) - (if q[0].bettor == who {
            q[0].wager - nb.wager
        } else {
            0int
        }) by {
        crate::sums::lemma_map_sum_update(q, 0, nb, bet_of_fn(who));
    }
}

/// The heads of both queues together hold no more wager than the whole
/// book has collected and not yet dealt.
proof fn lemma_heads_bounded(b: Book)
    requires
        b.wf(),
        b.bets_for@.len() > 0,
        b.bets_against@.len() > 0,
    ensures
        b.bets_for@[0].wager + b.bets_against@[0].wager + b.dealt_wager <= b.wager_total,
{
    assert(forall|j: int|
        0 <= j < b.bets_for@.len() ==> bet_wager_fn()(#[trigger] b.bets_for@[j]) >= 0);
    crate::sums::lemma_map_sum_bounds(b.bets_for@, bet_wager_fn());
    assert(forall|j: int|
        0 <= j < b.bets_against@.len() ==> bet_wager_fn()(#[trigger] b.bets_against@[j]) >= 0);
    crate::sums::lemma_map_sum_bounds(b.bets_against@, bet_wager_fn());
    assert(bet_wager_fn()(b.bets_for@[0]) <= queue_wager_sum(b.bets_for@));
    assert(bet_wager_fn()(b.bets_against@[0]) <= queue_wager_sum(b.bets_against@));
}

/// One queue's head holds no more wager than the whole book has
/// collected and not yet dealt.
proof fn lemma_head_bounded(q: Seq<Bet>, other: Seq<Bet>, b: Book)
    requires
        b.wf(),
        q == b.bets_for@ || q == b.bets_against@,
        other == b.bets_for@ || other == b.bets_against@,
        q.len() > 0,
    ensures
        q[0].wager + b.dealt_wager <= b.wager_total,
        queue_wager_sum(q) >= q[0].wager,
        queue_wager_sum(other) >= 0,
{
    assert(forall|j: int| 0 <= j < q.len() ==> bet_wager_fn()(#[trigger] q[j]) >= 0);
    crate::sums::lemma_map_sum_bounds(q, bet_wager_fn());
    assert(bet_wager_fn()(q[0]) == q[0].wager as int);
    assert(forall|j: int| 0 <= j < other.len() ==> bet_wager_fn()(#[trigger] other[j]) >= 0);
    crate::sums::lemma_map_sum_bounds(other, bet_wager_fn());
    assert(forall|j: int|
        0 <= j < b.bets_for@.len() ==> bet_wager_fn()(#[trigger] b.bets_for@[j]) >= 0);
    crate::sums::lemma_map_sum_bounds(b.bets_for@, bet_wager_fn());
    assert(forall|j: int|
        0 <= j < b.bets_against@.len() ==> bet_wager_fn()(#[trigger] b.bets_against@[j]) >= 0);
    crate::sums::lemma_map_sum_bounds(b.bets_against@, bet_wager_fn());
}

/// A backstop fill from the `against` head keeps the book well formed.
proof fn lemma_backstop_against_wf(pre: Book, post: Book)
    requires
        pre.wf(),
        pre.payout_for_total > pre.payout_against_total,
        pre.bets_against@.len() > 0,
        id_odds(pre.bets_against@[0].id) >= 1,
        wager_for_payout(
            id_odds(pre.bets_against@[0].id),
            pre.payout_for_total - pre.payout_against_total,
        ) <= pre.bets_against@[0].wager,
        backstop_against(pre, post),
    ensures
        post.wf(),
        crate::book::fully_accounted(pre) ==> crate::book::fully_accounted(post),
{
    let ba = pre.bets_against@[0];
    let who = ba.bettor;
    let diff = pre.payout_for_total - pre.payout_against_total;
    let dw = wager_for_payout(id_odds(ba.id), diff);
    let consumed = dw == ba.wager;
    crate::odds::lemma_wager_for_payout_pos(id_odds(ba.id), diff);
    lemma_head_position(pre, pre.bets_against@);
    lemma_head_bounded(pre.bets_against@, pre.bets_for@, pre);
    let i = kv_idx(pre.positions@, who);
    lemma_kv_idx_unique(pre.positions@, i);
    lemma_position_bounds(pre, i);
    let p0 = pre.positions@[i].1;
    let p1 = position_filled_against(p0, diff, dw, consumed);
    assert(p1.payout_against == p0.payout_against + diff);
    assert(p1.dealt_wager == p0.dealt_wager + dw);
    lemma_kv_update(pre.positions@, i, p1);
    crate::sums::lemma_map_sum_update(pre.positions@, i, (who, p1), entry_fn(pos_wager_fn()));
    crate::sums::lemma_map_sum_update(pre.positions@, i, (who, p1), entry_fn(pos_dealt_fn()));
    crate::sums::lemma_map_sum_update(pre.positions@, i, (who, p1), entry_fn(pos_payout_for_fn()));
    crate::sums::lemma_map_sum_update(
        pre.positions@,
        i,
        (who, p1),
        entry_fn(pos_payout_against_fn()),
    );
    crate::sums::lemma_map_sum_update(pre.positions@, i, (who, p1), entry_fn(pos_dispute_fn()));
    if consumed {
        lemma_queue_remove_head(pre.bets_against@, pre.bets_count);
        pre.bets_against@.remove_ensures(0);
    } else {
        lemma_queue_shrink_head(
            pre.bets_against@,
            Bet { wager: (ba.wager - dw) as u64, ..ba },
            pre.bets_count,
        );
    }
    // every queued bettor still has a position
    assert forall|j: int|
        0 <= j < post.bets_against@.len() implies kv_has(
        post.positions@,
        (#[trigger] post.bets_against@[j]).bettor,
    ) by {
        if consumed {
            assert(post.bets_against@[j] == pre.bets_against@[j + 1]);
            assert(kv_has(pre.positions@, pre.bets_against@[j + 1].bettor));
        } else {
            if j == 0 {
                assert(post.bets_against@[j].bettor == who);
            } else {
                assert(post.bets_against@[j] == pre.bets_against@[j]);
                assert(kv_has(pre.positions@, pre.bets_against@[j].bettor));
            }
        }
    }
    assert forall|j: int|
        0 <= j < post.bets_for@.len() implies kv_has(
        post.positions@,
        (#[trigger] post.bets_for@[j]).bettor,
    ) by {
        assert(kv_has(pre.positions@, pre.bets_for@[j].bettor));
    }
    // per-position bookkeeping
    assert forall|j: int|
        0 <= j < post.positions@.len() implies position_wf(
        (#[trigger] post.positions@[j]).1,
        post.positions@[j].0,
        post,
    ) by {
        let w2 = post.positions@[j].0;
        assert(position_wf(pre.positions@[j].1, pre.positions@[j].0, pre));
        assert(bettor_count(post.bets_against@, w2) == bettor_count(pre.bets_against@, w2) - (
        if consumed && who == w2 {
            1int
        } else {
            0int
        }));
        assert(bettor_wager_sum(post.bets_against@, w2) == bettor_wager_sum(
            pre.bets_against@,
            w2,
        ) - (if who == w2 {
            dw
        } else {
            0int
        }));
        if j != i {
            assert(post.positions@[j] == pre.positions@[j]);
            assert(pre.positions@[j].0 != who) by {
                lemma_kv_idx_unique(pre.positions@, i);
                lemma_kv_idx_unique(pre.positions@, j);
            }
        } else {
            assert(w2 == who);
            assert(post.positions@[j].1 == p1);
            if consumed {
                assert(bettor_count(pre.bets_against@, who) >= 1);
            }
        }
    }
}

/// A backstop fill from the `for` head keeps the book well formed.
proof fn lemma_backstop_for_wf(pre: Book, post: Book)
    requires
        pre.wf(),
        pre.payout_against_total > pre.payout_for_total,
        pre.bets_for@.len() > 0,
        id_odds(pre.bets_for@[0].id) >= 1,
        wager_for_payout(
            id_odds(pre.bets_for@[0].id),
            pre.payout_against_total - pre.payout_for_total,
        ) <= pre.bets_for@[0].wager,
        backstop_for(pre, post),
    ensures
        post.wf(),
        crate::book::fully_accounted(pre) ==> crate::book::fully_accounted(post),
{
    let bf = pre.bets_for@[0];
    let who = bf.bettor;
    let diff = pre.payout_against_total - pre.payout_for_total;
    let dw = wager_for_payout(id_odds(bf.id), diff);
    let consumed = dw == bf.wager;
    crate::odds::lemma_wager_for_payout_pos(id_odds(bf.id), diff);
    lemma_head_position(pre, pre.bets_for@);
    lemma_head_bounded(pre.bets_for@, pre.bets_against@, pre);
    let i = kv_idx(pre.positions@, who);
    lemma_kv_idx_unique(pre.positions@, i);
    lemma_position_bounds(pre, i);
    let p0 = pre.positions@[i].1;
    let p1 = position_filled_for(p0, diff, dw, consumed);
    assert(p1.payout_for == p0.payout_for + diff);
    assert(p1.dealt_wager == p0.dealt_wager + dw);
    lemma_kv_update(pre.positions@, i, p1);
    crate::sums::lemma_map_sum_update(pre.positions@, i, (who, p1), entry_fn(pos_wager_fn()));
    crate::sums::lemma_map_sum_update(pre.positions@, i, (who, p1), entry_fn(pos_dealt_fn()));
    crate::sums::lemma_map_sum_update(pre.positions@, i, (who, p1), entry_fn(pos_payout_for_fn()));
    crate::sums::lemma_map_sum_update(
        pre.positions@,
        i,
        (who, p1),
        entry_fn(pos_payout_against_fn()),
    );
    crate::sums::lemma_map_sum_update(pre.positions@, i, (who, p1), entry_fn(pos_dispute_fn()));
    if consumed {
        lemma_queue_remove_head(pre.bets_for@, pre.bets_count);
        pre.bets_for@.remove_ensures(0);
    } else {
        lemma_queue_shrink_head(
            pre.bets_for@,
            Bet { wager: (bf.wager - dw) as u64, ..bf },
            pre.bets_count,
        );
    }
    assert forall|j: int|
        0 <= j < post.bets_for@.len() implies kv_has(
        post.positions@,
        (#[trigger] post.bets_for@[j]).bettor,
    ) by {
        if consumed {
            assert(post.bets_for@[j] == pre.bets_for@[j + 1]);
            assert(kv_has(pre.positions@, pre.bets_for@[j + 1].bettor));
        } else {
            if j == 0 {
                assert(post.bets_for@[j].bettor == who);
            } else {
                assert(post.bets_for@[j] == pre.bets_for@[j]);
                assert(kv_has(pre.positions@, pre.bets_for@[j].bettor));
            }
        }
    }
    assert forall|j: int|
        0 <= j < post.bets_against@.len() implies kv_has(
        post.positions@,
        (#[trigger] post.bets_against@[j]).bettor,
    ) by {
        assert(kv_has(pre.positions@, pre.bets_against@[j].bettor));
    }
    assert forall|j: int|
        0 <= j < post.positions@.len() implies position_wf(
        (#[trigger] post.positions@[j]).1,
        post.positions@[j].0,
        post,
    ) by {
        let w2 = post.positions@[j].0;
        assert(position_wf(pre.positions@[j].1, pre.positions@[j].0, pre));
        assert(bettor_count(post.bets_for@, w2) == bettor_count(pre.bets_for@, w2) - (
        if consumed && who == w2 {
            1int
        } else {
            0int
        }));
        assert(bettor_wager_sum(post.bets_for@, w2) == bettor_wager_sum(pre.bets_for@, w2) - (
        if who == w2 {
            dw
        } else {
            0int
        }));
        if j != i {
            assert(post.positions@[j] == pre.positions@[j]);
            assert(pre.positions@[j].0 != who) by {
                lemma_kv_idx_unique(pre.positions@, i);
                lemma_kv_idx_unique(pre.positions@, j);
            }
        } else {
            assert(w2 == who);
            assert(post.positions@[j].1 == p1);
            if consumed {
                assert(bettor_count(pre.bets_for@, who) >= 1);
            }
        }
    }
}

/// A balanced fill driven by the `for` head keeps the book well formed.
proof fn lemma_filled_for_drive_wf(pre: Book, post: Book)
    requires
        pre.wf(),
        balanced_heads_cross(pre),
        for_full_payout(pre) <= pre.bets_against@[0].wager + pre.bets_for@[0].wager,
        for_full_payout(pre) >= pre.bets_for@[0].wager,
        filled_for_drive(pre, post),
    ensures
        post.wf(),
        crate::book::fully_accounted(pre) ==> crate::book::fully_accounted(post),
{
    let bf = pre.bets_for@[0];
    let ba = pre.bets_against@[0];
    let f_odds = id_odds(bf.id);
    let a_odds = id_odds(ba.id);
    let p = for_full_payout(pre);
    let x = p - bf.wager;
    let y = payout_amount(a_odds, x);
    let consumed_a = x == ba.wager;
    lemma_heads_bounded(pre);
    lemma_head_position(pre, pre.bets_for@);
    lemma_head_position(pre, pre.bets_against@);
    assert(f_odds >= 0 && a_odds >= 0) by {
        vstd::arithmetic::div_mod::lemma_div_pos_is_pos(bf.id as int, 0x1_0000_0000);
        vstd::arithmetic::div_mod::lemma_div_pos_is_pos(ba.id as int, 0x1_0000_0000);
    }
    lemma_payout_ge_wager_converse(f_odds, bf.wager as int);
    assert(a_odds >= 1000) by {
        if a_odds < 1000 {
            assert((1000 - f_odds) * (1000 - a_odds) <= 0) by (nonlinear_arith)
                requires
                    f_odds >= 1000,
                    a_odds < 1000,
            ;
        }
    }
    lemma_counter_payout_le(f_odds, a_odds, bf.wager as int);
    crate::odds::lemma_payout_upper(a_odds, x);
    // the first position update: the driving for-bet's bettor
    let i1 = kv_idx(pre.positions@, bf.bettor);
    lemma_kv_idx_unique(pre.positions@, i1);
    lemma_position_bounds(pre, i1);
    let p0 = pre.positions@[i1].1;
    let p1 = position_filled_for(p0, p, bf.wager as int, true);
    assert(p1.payout_for == p0.payout_for + p);
    assert(p1.dealt_wager == p0.dealt_wager + bf.wager);
    assert(p1.active_bets_count == p0.active_bets_count - 1);
    let s1 = pre.positions@.update(i1, (bf.bettor, p1));
    lemma_kv_update(pre.positions@, i1, p1);
    crate::sums::lemma_map_sum_update(pre.positions@, i1, (bf.bettor, p1), entry_fn(pos_wager_fn()));
    crate::sums::lemma_map_sum_update(pre.positions@, i1, (bf.bettor, p1), entry_fn(pos_dealt_fn()));
    crate::sums::lemma_map_sum_update(
        pre.positions@,
        i1,
        (bf.bettor, p1),
        entry_fn(pos_payout_for_fn()),
    );
    crate::sums::lemma_map_sum_update(
        pre.positions@,
        i1,
        (bf.bettor, p1),
        entry_fn(pos_payout_against_fn()),
    );
    crate::sums::lemma_map_sum_update(pre.positions@, i1, (bf.bettor, p1), entry_fn(pos_dispute_fn()));
    // the second position update: the against-bet's bettor
    let i2pre = kv_idx(pre.positions@, ba.bettor);
    lemma_kv_idx_unique(pre.positions@, i2pre);
    lemma_position_bounds(pre, i2pre);
    assert(s1[i2pre].0 == ba.bettor);
    lemma_kv_idx_unique(s1, i2pre);
    let i2 = kv_idx(s1, ba.bettor);
    assert(i2 == i2pre);
    let q0 = s1[i2].1;
    assert(q0 == (if i2 == i1 { p1 } else { pre.positions@[i2].1 }));
    assert(q0.payout_against == pre.positions@[i2].1.payout_against);
    let q1 = position_filled_against(q0, y, x, consumed_a);
    assert(forall|j: int|
        0 <= j < s1.len() ==> entry_fn(pos_dealt_fn())(#[trigger] s1[j]) >= 0);
    crate::sums::lemma_map_sum_bounds(s1, entry_fn(pos_dealt_fn()));
    assert(q0.dealt_wager <= pre.dealt_wager + bf.wager);
    assert(q1.payout_against == q0.payout_against + y);
    assert(q1.dealt_wager == q0.dealt_wager + x);
    assert(consumed_a ==> q0.active_bets_count >= 1) by {
        if consumed_a {
            if i2 == i1 {
                assert(p0.active_bets_count >= bettor_count(pre.bets_for@, bf.bettor)
                    + bettor_count(pre.bets_against@, bf.bettor));
            }
        }
    }
    lemma_kv_update(s1, i2, q1);
    crate::sums::lemma_map_sum_update(s1, i2, (ba.bettor, q1), entry_fn(pos_wager_fn()));
    crate::sums::lemma_map_sum_update(s1, i2, (ba.bettor, q1), entry_fn(pos_dealt_fn()));
    crate::sums::lemma_map_sum_update(s1, i2, (ba.bettor, q1), entry_fn(pos_payout_for_fn()));
    crate::sums::lemma_map_sum_update(s1, i2, (ba.bettor, q1), entry_fn(pos_payout_against_fn()));
    crate::sums::lemma_map_sum_update(s1, i2, (ba.bettor, q1), entry_fn(pos_dispute_fn()));
    // queue effects
    lemma_queue_remove_head(pre.bets_for@, pre.bets_count);
    pre.bets_for@.remove_ensures(0);
    if consumed_a {
        lemma_queue_remove_head(pre.bets_against@, pre.bets_count);
        pre.bets_against@.remove_ensures(0);
    } else {
        lemma_queue_shrink_head(
            pre.bets_against@,
            Bet { wager: (ba.wager - x) as u64, ..ba },
            pre.bets_count,
        );
    }
    // every queued bettor still has a position
    assert forall|j: int|
        0 <= j < post.bets_for@.len() implies kv_has(
        post.positions@,
        (#[trigger] post.bets_for@[j]).bettor,
    ) by {
        assert(post.bets_for@[j] == pre.bets_for@[j + 1]);
        assert(kv_has(pre.positions@, pre.bets_for@[j + 1].bettor));
    }
    assert forall|j: int|
        0 <= j < post.bets_against@.len() implies kv_has(
        post.positions@,
        (#[trigger] post.bets_against@[j]).bettor,
    ) by {
        if consumed_a {
            assert(post.bets_against@[j] == pre.bets_against@[j + 1]);
            assert(kv_has(pre.positions@, pre.bets_against@[j + 1].bettor));
        } else {
            if j == 0 {
                assert(post.bets_against@[j].bettor == ba.bettor);
            } else {
                assert(post.bets_against@[j] == pre.bets_against@[j]);
                assert(kv_has(pre.positions@, pre.bets_against@[j].bettor));
            }
        }
    }
    // per-position bookkeeping
    assert forall|j: int|
        0 <= j < post.positions@.len() implies position_wf(
        (#[trigger] post.positions@[j]).1,
        post.positions@[j].0,
        post,
    ) by {
        let w2 = post.positions@[j].0;
        assert(w2 == pre.positions@[j].0);
        assert(position_wf(pre.positions@[j].1, pre.positions@[j].0, pre));
        assert(bettor_count(post.bets_for@, w2) == bettor_count(pre.bets_for@, w2) - (
        if bf.bettor == w2 {
            1int
        } else {
            0int
        }));
        assert(bettor_wager_sum(post.bets_for@, w2) == bettor_wager_sum(pre.bets_for@, w2) - (
        if bf.bettor == w2 {
            bf.wager as int
        } else {
            0int
        }));
        assert(bettor_count(post.bets_against@, w2) == bettor_count(pre.bets_against@, w2) - (
        if consumed_a && ba.bettor == w2 {
            1int
        } else {
            0int
        }));
        assert(bettor_wager_sum(post.bets_against@, w2) == bettor_wager_sum(
            pre.bets_against@,
            w2,
        ) - (if ba.bettor == w2 {
            x
        } else {
            0int
        }));
        if j == i1 && j == i2 {
            assert(post.positions@[j].1 == q1);
        } else if j == i1 {
            assert(post.positions@[j].1 == p1);
            assert(w2 != ba.bettor) by {
                lemma_kv_idx_unique(pre.positions@, i2);
                lemma_kv_idx_unique(pre.positions@, j);
            }
        } else if j == i2 {
            assert(post.positions@[j].1 == q1);
            assert(q0 == pre.positions@[j].1);
            assert(w2 != bf.bettor) by {
                lemma_kv_idx_unique(pre.positions@, i1);
                lemma_kv_idx_unique(pre.positions@, j);
            }
        } else {
            assert(post.positions@[j] == pre.positions@[j]);
            assert(w2 != bf.bettor && w2 != ba.bettor) by {
                lemma_kv_idx_unique(pre.positions@, i1);
                lemma_kv_idx_unique(pre.positions@, i2);
                lemma_kv_idx_unique(pre.positions@, j);
            }
        }
    }
}

/// A balanced fill driven by the `against` head keeps the book well
/// formed.
proof fn lemma_filled_against_drive_wf(pre: Book, post: Book)
    requires
        pre.wf(),
        balanced_heads_cross(pre),
        against_full_payout(pre) <= pre.bets_for@[0].wager + pre.bets_against@[0].wager,
        against_full_payout(pre) >= pre.bets_against@[0].wager,
        filled_against_drive(pre, post),
    ensures
        post.wf(),
        crate::book::fully_accounted(pre) ==> crate::book::fully_accounted(post),
{
    let bf = pre.bets_for@[0];
    let ba = pre.bets_against@[0];
    let f_odds = id_odds(bf.id);
    let a_odds = id_odds(ba.id);
    let p = against_full_payout(pre);
    let x = p - ba.wager;
    let y = payout_amount(f_odds, x);
    let consumed_f = x == bf.wager;
    lemma_heads_bounded(pre);
    lemma_head_position(pre, pre.bets_for@);
    lemma_head_position(pre, pre.bets_against@);
    assert(f_odds >= 0 && a_odds >= 0) by {
        vstd::arithmetic::div_mod::lemma_div_pos_is_pos(bf.id as int, 0x1_0000_0000);
        vstd::arithmetic::div_mod::lemma_div_pos_is_pos(ba.id as int, 0x1_0000_0000);
    }
    lemma_payout_ge_wager_converse(a_odds, ba.wager as int);
    assert((a_odds - 1000) * (f_odds - 1000) <= 1000000) by {
        assert((f_odds - 1000) * (a_odds - 1000) <= 1000000);
        vstd::arithmetic::mul::lemma_mul_is_commutative(f_odds - 1000, a_odds - 1000);
    }
    lemma_counter_payout_le(a_odds, f_odds, ba.wager as int);
    crate::odds::lemma_payout_upper(f_odds, x);
    // the first position update: the driving against-bet's bettor
    let i1 = kv_idx(pre.positions@, ba.bettor);
    lemma_kv_idx_unique(pre.positions@, i1);
    lemma_position_bounds(pre, i1);
    let p0 = pre.positions@[i1].1;
    let p1 = position_filled_against(p0, p, ba.wager as int, true);
    assert(p1.payout_against == p0.payout_against + p);
    assert(p1.dealt_wager == p0.dealt_wager + ba.wager);
    assert(p1.active_bets_count == p0.active_bets_count - 1);
    let s1 = pre.positions@.update(i1, (ba.bettor, p1));
    lemma_kv_update(pre.positions@, i1, p1);
    crate::sums::lemma_map_sum_update(pre.positions@, i1, (ba.bettor, p1), entry_fn(pos_wager_fn()));
    crate::sums::lemma_map_sum_update(pre.positions@, i1, (ba.bettor, p1), entry_fn(pos_dealt_fn()));
    crate::sums::lemma_map_sum_update(
        pre.positions@,
        i1,
        (ba.bettor, p1),
        entry_fn(pos_payout_for_fn()),
    );
    crate::sums::lemma_map_sum_update(
        pre.positions@,
        i1,
        (ba.bettor, p1),
        entry_fn(pos_payout_against_fn()),
    );
    crate::sums::lemma_map_sum_update(pre.positions@, i1, (ba.bettor, p1), entry_fn(pos_dispute_fn()));
    // the second position update: the for-bet's bettor
    let i2pre = kv_idx(pre.positions@, bf.bettor);
    lemma_kv_idx_unique(pre.positions@, i2pre);
    lemma_position_bounds(pre, i2pre);
    assert(s1[i2pre].0 == bf.bettor);
    lemma_kv_idx_unique(s1, i2pre);
    let i2 = kv_idx(s1, bf.bettor);
    assert(i2 == i2pre);
    let q0 = s1[i2].1;
    assert(q0 == (if i2 == i1 { p1 } else { pre.positions@[i2].1 }));
    assert(q0.payout_for == pre.positions@[i2].1.payout_for);
    let q1 = position_filled_for(q0, y, x, consumed_f);
    assert(forall|j: int|
        0 <= j < s1.len() ==> entry_fn(pos_dealt_fn())(#[trigger] s1[j]) >= 0);
    crate::sums::lemma_map_sum_bounds(s1, entry_fn(pos_dealt_fn()));
    assert(q0.dealt_wager <= pre.dealt_wager + ba.wager);
    assert(q1.payout_for == q0.payout_for + y);
    assert(q1.dealt_wager == q0.dealt_wager + x);
    assert(consumed_f ==> q0.active_bets_count >= 1) by {
        if consumed_f {
            if i2 == i1 {
                assert(p0.active_bets_count >= bettor_count(pre.bets_for@, ba.bettor)
                    + bettor_count(pre.bets_against@, ba.bettor));
            }
        }
    }
    lemma_kv_update(s1, i2, q1);
    crate::sums::lemma_map_sum_update(s1, i2, (bf.bettor, q1), entry_fn(pos_wager_fn()));
    crate::sums::lemma_map_sum_update(s1, i2, (bf.bettor, q1), entry_fn(pos_dealt_fn()));
    crate::sums::lemma_map_sum_update(s1, i2, (bf.bettor, q1), entry_fn(pos_payout_for_fn()));
    crate::sums::lemma_map_sum_update(s1, i2, (bf.bettor, q1), entry_fn(pos_payout_against_fn()));
    crate::sums::lemma_map_sum_update(s1, i2, (bf.bettor, q1), entry_fn(pos_dispute_fn()));
    // queue effects
    lemma_queue_remove_head(pre.bets_against@, pre.bets_count);
    pre.bets_against@.remove_ensures(0);
    if consumed_f {
        lemma_queue_remove_head(pre.bets_for@, pre.bets_count);
        pre.bets_for@.remove_ensures(0);
    } else {
        lemma_queue_shrink_head(
            pre.bets_for@,
            Bet { wager: (bf.wager - x) as u64, ..bf },
            pre.bets_count,
        );
    }
    // every queued bettor still has a position
    assert forall|j: int|
        0 <= j < post.bets_against@.len() implies kv_has(
        post.positions@,
        (#[trigger] post.bets_against@[j]).bettor,
    ) by {
        assert(post.bets_against@[j] == pre.bets_against@[j + 1]);
        assert(kv_has(pre.positions@, pre.bets_against@[j + 1].bettor));
    }
    assert forall|j: int|
        0 <= j < post.bets_for@.len() implies kv_has(
        post.positions@,
        (#[trigger] post.bets_for@[j]).bettor,
    ) by {
        if consumed_f {
            assert(post.bets_for@[j] == pre.bets_for@[j + 1]);
            assert(kv_has(pre.positions@, pre.bets_for@[j + 1].bettor));
        } else {
            if j == 0 {
                assert(post.bets_for@[j].bettor == bf.bettor);
            } else {
                assert(post.bets_for@[j] == pre.bets_for@[j]);
                assert(kv_has(pre.positions@, pre.bets_for@[j].bettor));
            }
        }
    }
    // per-position bookkeeping
    assert forall|j: int|
        0 <= j < post.positions@.len() implies position_wf(
        (#[trigger] post.positions@[j]).1,
        post.positions@[j].0,
        post,
    ) by {
        let w2 = post.positions@[j].0;
        assert(w2 == pre.positions@[j].0);
        assert(position_wf(pre.positions@[j].1, pre.positions@[j].0, pre));
        assert(bettor_count(post.bets_against@, w2) == bettor_count(pre.bets_against@, w2) - (
        if ba.bettor == w2 {
            1int
        } else {
            0int
        }));
        assert(bettor_wager_sum(post.bets_against@, w2) == bettor_wager_sum(
            pre.bets_against@,
            w2,
        ) - (if ba.bettor == w2 {
            ba.wager as int
        } else {
            0int
        }));
        assert(bettor_count(post.bets_for@, w2) == bettor_count(pre.bets_for@, w2) - (
        if consumed_f && bf.bettor == w2 {
            1int
        } else {
            0int
        }));
        assert(bettor_wager_sum(post.bets_for@, w2) == bettor_wager_sum(pre.bets_for@, w2) - (
        if bf.bettor == w2 {
            x
        } else {
            0int
        }));
        if j == i1 && j == i2 {
            assert(post.positions@[j].1 == q1);
        } else if j == i1 {
            assert(post.positions@[j].1 == p1);
            assert(w2 != bf.bettor) by {
                lemma_kv_idx_unique(pre.positions@, i2);
                lemma_kv_idx_unique(pre.positions@, j);
            }
        } else if j == i2 {
            assert(post.positions@[j].1 == q1);
            assert(q0 == pre.positions@[j].1);
            assert(w2 != ba.bettor) by {
                lemma_kv_idx_unique(pre.positions@, i1);
                lemma_kv_idx_unique(pre.positions@, j);
            }
        } else {
            assert(post.positions@[j] == pre.positions@[j]);
            assert(w2 != ba.bettor && w2 != bf.bettor) by {
                lemma_kv_idx_unique(pre.positions@, i1);
                lemma_kv_idx_unique(pre.positions@, i2);
                lemma_kv_idx_unique(pre.positions@, j);
            }
        }
    }
}

/// A queued bettor holds a position with at least one active bet.
proof fn lemma_head_position(b: Book, q: Seq<Bet>)
    requires
        b.wf(),
        q == b.bets_for@ || q == b.bets_against@,
        q.len() > 0,
    ensures
        kv_has(b.positions@, q[0].bettor),
        bettor_count(q, q[0].bettor) >= 1,
        kv_get(b.positions@, q[0].bettor).active_bets_count >= 1,
        0 <= kv_idx(b.positions@, q[0].bettor) < b.positions@.len(),
{
    let who = q[0].bettor;
    assert(kv_has(b.positions@, who));
    assert(forall|j: int| 0 <= j < q.len() ==> bet_count_fn(who)(#[trigger] q[j]) >= 0);
    crate::sums::lemma_map_sum_bounds(q, bet_count_fn(who));
    assert(bet_count_fn(who)(q[0]) == 1);
    let i = kv_idx(b.positions@, who);
    assert(0 <= i < b.positions@.len() && b.positions@[i].0 == who);
    lemma_kv_idx_unique(b.positions@, i);
    assert(position_wf(b.positions@[i].1, who, b));
    if q == b.bets_for@ {
        assert(forall|j: int|
            0 <= j < b.bets_against@.len() ==> bet_count_fn(who)(
                #[trigger] b.bets_against@[j],
            ) >= 0);
        crate::sums::lemma_map_sum_bounds(b.bets_against@, bet_count_fn(who));
    } else {
        assert(forall|j: int|
            0 <= j < b.bets_for@.len() ==> bet_count_fn(who)(#[trigger] b.bets_for@[j]) >= 0);
        crate::sums::lemma_map_sum_bounds(b.bets_for@, bet_count_fn(who));
    }
}

impl Book {
    /// Match one unit of liquidity. Balanced books pair the two queue
    /// heads when their prices cross; an over-exposed book makes the
    /// opposing head absorb the whole shortfall as backstop liquidity.
    /// Returns whether anything changed; the caller loops until it
    /// reports no progress.
    pub fn match_bets(&mut self) -> (r: bool)
        requires
            old(self).wf(),
        ensures
            final(self).wf(),
            match_step(*old(self), *final(self), r),
            r == match_can_progress(*old(self)),
            r ==> match_measure(*final(self)) < match_measure(*old(self)),
            crate::book::fully_accounted(*old(self)) ==> crate::book::fully_accounted(
                *final(self),
            ),
    {
        let ghost pre = *self;
        if !(self.dealt_wager >= self.payout_for_total && self.dealt_wager
            >= self.payout_against_total) {
            return false;
        }
        if self.payout_for_total == self.payout_against_total {
            if self.bets_for.len() > 0 && self.bets_against.len() > 0 {
                let bf = self.bets_for[0];
                let ba = self.bets_against[0];
                let f_odds = bf.odds();
                let a_odds = ba.odds();
                if prices_do_cross(f_odds, a_odds) {
                    let p_f128 = payout_u128(f_odds, bf.wager);
                    let p_a128 = payout_u128(a_odds, ba.wager);
                    if p_f128 <= (ba.wager as u128) + (bf.wager as u128) {
                        if p_f128 >= (bf.wager as u128) {
                            proof {
                                lemma_heads_bounded(pre);
                                lemma_head_position(pre, pre.bets_for@);
                                lemma_head_position(pre, pre.bets_against@);
                                lemma_payout_ge_wager_converse(f_odds as int, bf.wager as int);
                                if a_odds < 1000 {
                                    assert((1000 - f_odds as int) * (1000 - a_odds as int) <= 0)
                                        by (nonlinear_arith)
                                        requires
                                            f_odds >= 1000,
                                            a_odds < 1000,
                                    ;
                                }
                                lemma_counter_payout_le(f_odds as int, a_odds as int, bf.wager as int);
                            }
                            let p_f = p_f128 as u64;
                            let x = p_f - bf.wager;
                            let y128 = payout_u128(a_odds, x);
                            proof {
                                crate::odds::lemma_payout_upper(a_odds as int, x as int);
                            }
                            let y = y128 as u64;
                            self.bets_for.remove(0);
                            if x < ba.wager {
                                self.bets_against.set(0, Bet { wager: ba.wager - x, ..ba });
                            } else {
                                self.bets_against.remove(0);
                            }
                            self.payout_for_total = self.payout_for_total + p_f;
                            self.payout_against_total = self.payout_against_total + y;
                            self.dealt_wager = self.dealt_wager + p_f;
                            let ghost i1s = kv_idx(pre.positions@, bf.bettor);
                            let i1 = kv_find(&self.positions, bf.bettor).unwrap();
                            proof {
                                lemma_kv_idx_unique(pre.positions@, i1 as int);
                                assert(i1 as int == i1s);
                                lemma_position_bounds(pre, i1 as int);
                            }
                            let p0 = self.positions[i1].1;
                            let p1 = Position {
                                payout_for: p0.payout_for + p_f,
                                dealt_wager: p0.dealt_wager + bf.wager,
                                active_bets_count: p0.active_bets_count - 1,
                                ..p0
                            };
                            self.positions.set(i1, (bf.bettor, p1));
                            let ghost s1 = pre.positions@.update(i1s, (bf.bettor, p1));
                            proof {
                                assert(self.positions@ == s1);
                                lemma_kv_update(pre.positions@, i1s, p1);
                            }
                            let i2 = kv_find(&self.positions, ba.bettor).unwrap();
                            proof {
                                lemma_kv_idx_unique(s1, i2 as int);
                                lemma_position_bounds(pre, kv_idx(pre.positions@, ba.bettor));
                                lemma_kv_idx_unique(pre.positions@, kv_idx(pre.positions@, ba.bettor));
                                assert(s1[i2 as int].0 == ba.bettor);
                                assert(pre.positions@[i2 as int].0 == ba.bettor);
                                lemma_kv_idx_unique(pre.positions@, i2 as int);
                                lemma_position_bounds(pre, i2 as int);
                                assert(forall|j: int|
                                    0 <= j < s1.len() ==> entry_fn(pos_dealt_fn())(
                                        #[trigger] s1[j],
                                    ) >= 0);
                                crate::sums::lemma_map_sum_bounds(s1, entry_fn(pos_dealt_fn()));
                                crate::sums::lemma_map_sum_update(
                                    pre.positions@,
                                    i1s,
                                    (bf.bettor, p1),
                                    entry_fn(pos_dealt_fn()),
                                );
                            }
                            let q0 = self.positions[i2].1;
                            let q1 = Position {
                                payout_against: q0.payout_against + y,
                                dealt_wager: q0.dealt_wager + x,
                                active_bets_count: if x == ba.wager {
                                    q0.active_bets_count - 1
                                } else {
                                    q0.active_bets_count
                                },
                                ..q0
                            };
                            self.positions.set(i2, (ba.bettor, q1));
                            proof {
                                assert(kv_get(pre.positions@, bf.bettor) == p0);
                                assert(p1 == position_filled_for(
                                    p0,
                                    for_full_payout(pre),
                                    bf.wager as int,
                                    true,
                                ));
                                assert(kv_idx(s1, ba.bettor) == i2 as int);
                                assert(kv_get(s1, ba.bettor) == q0);
                                assert(q1 == position_filled_against(
                                    q0,
                                    payout_amount(id_odds(ba.id), x as int),
                                    x as int,
                                    x == ba.wager,
                                ));
                                assert(filled_for_drive(pre, *self));
                                lemma_filled_for_drive_wf(pre, *self);
                            }
                            return true;
                        } else {
                            return false;
                        }
                    } else if p_a128 <= (bf.wager as u128) + (ba.wager as u128) {
                        if p_a128 >= (ba.wager as u128) {
                            proof {
                                lemma_heads_bounded(pre);
                                lemma_head_position(pre, pre.bets_for@);
                                lemma_head_position(pre, pre.bets_against@);
                                lemma_payout_ge_wager_converse(a_odds as int, ba.wager as int);
                                assert((a_odds as int - 1000) * (f_odds as int - 1000) <= 1000000)
                                    by {
                                    assert((f_odds as int - 1000) * (a_odds as int - 1000)
                                        <= 1000000);
                                    vstd::arithmetic::mul::lemma_mul_is_commutative(
                                        f_odds as int - 1000,
                                        a_odds as int - 1000,
                                    );
                                }
                                lemma_counter_payout_le(a_odds as int, f_odds as int, ba.wager as int);
                            }
                            let p_a = p_a128 as u64;
                            let x = p_a - ba.wager;
                            let y128 = payout_u128(f_odds, x);
                            proof {
                                crate::odds::lemma_payout_upper(f_odds as int, x as int);
                            }
                            let y = y128 as u64;
                            self.bets_against.remove(0);
                            if x < bf.wager {
                                self.bets_for.set(0, Bet { wager: bf.wager - x, ..bf });
                            } else {
                                self.bets_for.remove(0);
                            }
                            self.payout_against_total = self.payout_against_total + p_a;
                            self.payout_for_total = self.payout_for_total + y;
                            self.dealt_wager = self.dealt_wager + p_a;
                            let ghost i1s = kv_idx(pre.positions@, ba.bettor);
                            let i1 = kv_find(&self.positions, ba.bettor).unwrap();
                            proof {
                                lemma_kv_idx_unique(pre.positions@, i1 as int);
                                assert(i1 as int == i1s);
                                lemma_position_bounds(pre, i1 as int);
                            }
                            let p0 = self.positions[i1].1;
                            let p1 = Position {
                                payout_against: p0.payout_against + p_a,
                                dealt_wager: p0.dealt_wager + ba.wager,
                                active_bets_count: p0.active_bets_count - 1,
                                ..p0
                            };
                            self.positions.set(i1, (ba.bettor, p1));
                            let ghost s1 = pre.positions@.update(i1s, (ba.bettor, p1));
                            proof {
                                assert(self.positions@ == s1);
                                lemma_kv_update(pre.positions@, i1s, p1);
                            }
                            let i2 = kv_find(&self.positions, bf.bettor).unwrap();
                            proof {
                                lemma_kv_idx_unique(s1, i2 as int);
                                lemma_position_bounds(pre, kv_idx(pre.positions@, bf.bettor));
                                lemma_kv_idx_unique(pre.positions@, kv_idx(pre.positions@, bf.bettor));
                                assert(s1[i2 as int].0 == bf.bettor);
                                assert(pre.positions@[i2 as int].0 == bf.bettor);
                                lemma_kv_idx_unique(pre.positions@, i2 as int);
                                lemma_position_bounds(pre, i2 as int);
                                assert(forall|j: int|
                                    0 <= j < s1.len() ==> entry_fn(pos_dealt_fn())(
                                        #[trigger] s1[j],
                                    ) >= 0);
                                crate::sums::lemma_map_sum_bounds(s1, entry_fn(pos_dealt_fn()));
                                crate::sums::lemma_map_sum_update(
                                    pre.positions@,
                                    i1s,
                                    (ba.bettor, p1),
                                    entry_fn(pos_dealt_fn()),
                                );
                            }
                            let q0 = self.positions[i2].1;
                            let q1 = Position {
                                payout_for: q0.payout_for + y,
                                dealt_wager: q0.dealt_wager + x,
                                active_bets_count: if x == bf.wager {
                                    q0.active_bets_count - 1
                                } else {
                                    q0.active_bets_count
                                },
                                ..q0
                            };
                            self.positions.set(i2, (bf.bettor, q1));
                            proof {
                                assert(kv_get(pre.positions@, ba.bettor) == p0);
                                assert(p1 == position_filled_against(
                                    p0,
                                    against_full_payout(pre),
                                    ba.wager as int,
                                    true,
                                ));
                                assert(kv_idx(s1, bf.bettor) == i2 as int);
                                assert(kv_get(s1, bf.bettor) == q0);
                                assert(q1 == position_filled_for(
                                    q0,
                                    payout_amount(id_odds(bf.id), x as int),
                                    x as int,
                                    x == bf.wager,
                                ));
                                assert(filled_against_drive(pre, *self));
                                lemma_filled_against_drive_wf(pre, *self);
                            }
                            return true;
                        } else {
                            return false;
                        }
                    } else {
                        return false;
                    }
                } else {
                    return false;
                }
            } else {
                return false;
            }
        } else if self.payout_for_total > self.payout_against_total {
            if self.bets_against.len() > 0 {
                let ba = self.bets_against[0];
                let a_odds = ba.odds();
                let diff = self.payout_for_total - self.payout_against_total;
                if a_odds >= 1 {
                    let dw128 = wager_for_u128(a_odds, diff);
                    if dw128 <= (ba.wager as u128) {
                        let dw = dw128 as u64;
                        proof {
                            crate::odds::lemma_wager_for_payout_pos(a_odds as int, diff as int);
                            lemma_head_bounded(pre.bets_against@, pre.bets_for@, pre);
                            lemma_head_position(pre, pre.bets_against@);
                        }
                        if dw < ba.wager {
                            self.bets_against.set(0, Bet { wager: ba.wager - dw, ..ba });
                        } else {
                            self.bets_against.remove(0);
                        }
                        self.payout_against_total = self.payout_for_total;
                        self.dealt_wager = self.dealt_wager + dw;
                        let ghost i1s = kv_idx(pre.positions@, ba.bettor);
                        let i1 = kv_find(&self.positions, ba.bettor).unwrap();
                        proof {
                            lemma_kv_idx_unique(pre.positions@, i1 as int);
                            assert(i1 as int == i1s);
                            lemma_position_bounds(pre, i1 as int);
                        }
                        let p0 = self.positions[i1].1;
                        let p1 = Position {
                            payout_against: p0.payout_against + diff,
                            dealt_wager: p0.dealt_wager + dw,
                            active_bets_count: if dw == ba.wager {
                                p0.active_bets_count - 1
                            } else {
                                p0.active_bets_count
                            },
                            ..p0
                        };
                        self.positions.set(i1, (ba.bettor, p1));
                        proof {
                            assert(kv_get(pre.positions@, ba.bettor) == p0);
                            assert(p1 == position_filled_against(
                                p0,
                                diff as int,
                                dw as int,
                                dw == ba.wager,
                            ));
                            assert(backstop_against(pre, *self));
                            lemma_backstop_against_wf(pre, *self);
                        }
                        return true;
                    } else {
                        return false;
                    }
                } else {
                    return false;
                }
            } else {
                return false;
            }
        } else {
            if self.bets_for.len() > 0 {
                let bf = self.bets_for[0];
                let f_odds = bf.odds();
                let diff = self.payout_against_total - self.payout_for_total;
                if f_odds >= 1 {
                    let dw128 = wager_for_u128(f_odds, diff);
                    if dw128 <= (bf.wager as u128) {
                        let dw = dw128 as u64;
                        proof {
                            crate::odds::lemma_wager_for_payout_pos(f_odds as int, diff as int);
                            lemma_head_bounded(pre.bets_for@, pre.bets_against@, pre);
                            lemma_head_position(pre, pre.bets_for@);
                        }
                        if dw < bf.wager {
                            self.bets_for.set(0, Bet { wager: bf.wager - dw, ..bf });
                        } else {
                            self.bets_for.remove(0);
                        }
                        self.payout_for_total = self.payout_against_total;
                        self.dealt_wager = self.dealt_wager + dw;
                        let ghost i1s = kv_idx(pre.positions@, bf.bettor);
                        let i1 = kv_find(&self.positions, bf.bettor).unwrap();
                        proof {
                            lemma_kv_idx_unique(pre.positions@, i1 as int);
                            assert(i1 as int == i1s);
                            lemma_position_bounds(pre, i1 as int);
                        }
                        let p0 = self.positions[i1].1;
                        let p1 = Position {
                            payout_for: p0.payout_for + diff,
                            dealt_wager: p0.dealt_wager + dw,
                            active_bets_count: if dw == bf.wager {
                                p0.active_bets_count - 1
                            } else {
                                p0.active_bets_count
                            },
                            ..p0
                        };
                        self.positions.set(i1, (bf.bettor, p1));
                        proof {
                            assert(kv_get(pre.positions@, bf.bettor) == p0);
                            assert(p1 == position_filled_for(
                                p0,
                                diff as int,
                                dw as int,
                                dw == bf.wager,
                            ));
                            assert(backstop_for(pre, *self));
                            lemma_backstop_for_wf(pre, *self);
                        }
                        return true;
                    } else {
                        return false;
                    }
                } else {
                    return false;
                }
            } else {
                return false;
            }
        }
    }
}

} // verus!
