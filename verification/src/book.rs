//! The book: one market proposition, its open bet queues, per-bettor
//! positions, oracle registrations and aggregate counters.

use vstd::prelude::*;
use crate::kv::{kv_distinct, kv_has, kv_idx, kv_get, kv_find, lemma_kv_idx_unique, lemma_kv_update};
use crate::sums::sum_int;

verus! {

/// Participant identity, as the surrounding platform hands it to the
/// book: an opaque account number.
pub type AccountId = u64;

/// Side of the proposition a wager backs.
#[derive(Clone, Copy, Debug, PartialEq, Eq, Structural)]
pub enum BetDirection {
    For,
    Against,
}

/// Reported or resolved outcome of the proposition.
#[derive(Clone, Copy, Debug, PartialEq, Eq, Structural)]
pub enum BetOutcome {
    For,
    Cancel,
    Against,
}

/// The proposition itself: home win, draw or away win, with a numeric
/// handicap.
#[derive(Clone, Copy, Debug, PartialEq, Eq, Structural)]
pub enum BetType {
    One { handicap: i8 },
    X { handicap: i8 },
    Two { handicap: i8 },
}

/// An open wager in one of the two queues. The `id` is a composite sort
/// key: decimal odds in the high 32 bits, placement sequence number in
/// the low 32 bits, so ascending `id` orders by price first and arrival
/// second.
#[derive(Clone, Copy, Debug, PartialEq, Eq, Structural)]
pub struct Bet {
    pub id: u64,
    pub bettor: AccountId,
    pub wager: u64,
}

/// A staked outcome reporter.
#[derive(Clone, Copy, Debug)]
pub struct Oracle {
    pub stake: u64,
    pub outcome: Option<BetOutcome>,
}

/// Per-bettor running totals within one book.
#[derive(Clone, Copy, Debug, PartialEq, Eq, Structural)]
pub struct Position {
    pub active_bets_count: u32,
    pub bets_count: u32,
    pub payout_for: u64,
    pub payout_against: u64,
    pub wager: u64,
    pub dealt_wager: u64,
    pub dispute_stake: u64,
}

/// A book in which every aggregate counter equals the sum it accounts
/// for. This holds of any book built by placements, matching, oracle
/// staking and disputes; per-participant settlement is what first
/// breaks it, by paying a participant out and dropping their entry.
pub open spec fn fully_accounted(b: Book) -> bool {
    &&& b.wager_total == pos_sum(b.positions@, pos_wager_fn())
    &&& b.dealt_wager == pos_sum(b.positions@, pos_dealt_fn())
    &&& b.payout_for_total == pos_sum(b.positions@, pos_payout_for_fn())
    &&& b.payout_against_total == pos_sum(b.positions@, pos_payout_against_fn())
    &&& b.total_dispute_stake == pos_sum(b.positions@, pos_dispute_fn())
    &&& b.total_oracle_stake == oracle_stake_sum(b.oracles@)
}

/// Whether two vote values are the same.
pub fn outcome_eq(a: Option<BetOutcome>, b: Option<BetOutcome>) -> (r: bool)
    ensures
        r == (a == b),
{
    match (a, b) {
        (None, None) => true,
        (Some(x), Some(y)) => x == y,
        _ => false,
    }
}

impl Default for Position {
    /// The zeroed position a bettor starts with.
    fn default() -> (r: Self)
        ensures
            r.active_bets_count == 0,
            r.bets_count == 0,
            r.payout_for == 0,
            r.payout_against == 0,
            r.wager == 0,
            r.dealt_wager == 0,
            r.dispute_stake == 0,
    {
        Position {
            active_bets_count: 0,
            bets_count: 0,
            payout_for: 0,
            payout_against: 0,
            wager: 0,
            dealt_wager: 0,
            dispute_stake: 0,
        }
    }
}

impl Bet {
    /// The odds this bet was placed at, recovered from the high half of
    /// its id.
    pub fn odds(&self) -> (r: u32)
        ensures
            r == id_odds(self.id),
    {
        let q: u64 = self.id / BET_ID_ODDS_FACTOR;
        proof {
            vstd::arithmetic::div_mod::lemma_div_is_ordered(
                self.id as int,
                u64::MAX as int,
                0x1_0000_0000,
            );
        }
        q as u32
    }

    /// The payout this bet promises on its full remaining wager.
    pub fn payout(&self) -> (r: u64)
        requires
            crate::odds::payout_amount(id_odds(self.id), self.wager as int) <= u64::MAX,
        ensures
            r == crate::odds::payout_amount(id_odds(self.id), self.wager as int),
    {
        crate::odds::payout_by_wager(self.odds(), self.wager)
    }

    /// The payout this bet's odds promise on a given wager.
    pub fn get_payout_by_wager(&self, wager: u64) -> (r: u64)
        requires
            crate::odds::payout_amount(id_odds(self.id), wager as int) <= u64::MAX,
        ensures
            r == crate::odds::payout_amount(id_odds(self.id), wager as int),
    {
        crate::odds::payout_by_wager(self.odds(), wager)
    }

    /// The wager this bet must give up to produce a given payout at its
    /// odds, rounded up.
    pub fn get_wager_by_payout(&self, payout: u64) -> (r: u64)
        requires
            id_odds(self.id) >= 1,
            crate::odds::wager_for_payout(id_odds(self.id), payout as int) <= u64::MAX,
        ensures
            r == crate::odds::wager_for_payout(id_odds(self.id), payout as int),
    {
        crate::odds::wager_by_payout(self.odds(), payout)
    }
}

pub struct Book {
    pub game_id: u32,
    pub initiator: AccountId,
    pub bets_count: u32,
    pub wager_total: u64,
    pub payout_for_total: u64,
    pub payout_against_total: u64,
    pub dealt_wager: u64,
    pub bet_type: BetType,
    pub total_oracle_stake: u64,
    pub total_dispute_stake: u64,
    pub dispute_resolution_result: Option<BetOutcome>,
    pub aggregated_oracle_outcome: Option<BetOutcome>,
    pub concluded_at: Option<i64>,
    pub oracles: Vec<(AccountId, Oracle)>,
    pub bets_for: Vec<Bet>,
    pub bets_against: Vec<Bet>,
    pub positions: Vec<(AccountId, Position)>,
}

/// Serialized size of a book with empty collections, in bytes.
pub const BOOK_BASE_SPACE: usize = 126;

/// Serialized size of one queued bet.
pub const BET_SPACE: usize = 48;

/// Serialized size of one keyed oracle entry.
pub const ORACLE_ENTRY_SPACE: usize = 32 + 10;

/// Serialized size of one keyed position entry.
pub const POSITION_ENTRY_SPACE: usize = 32 + 48;

/// Multiplier that shifts an odds value into the high half of a bet id.
pub const BET_ID_ODDS_FACTOR: u64 = 0x1_0000_0000;

/// The odds a bet id carries in its high 32 bits.
pub open spec fn id_odds(id: u64) -> int {
    (id as int) / 0x1_0000_0000
}

/// The placement sequence number a bet id carries in its low 32 bits.
pub open spec fn id_seq(id: u64) -> int {
    (id as int) % 0x1_0000_0000
}

/// The id of the `n`-th bet placed at odds `odds`.
pub open spec fn bet_id_for(odds: u32, n: u32) -> int {
    (odds as int) * 0x1_0000_0000 + (n as int)
}

/// Contribution of one bet to the remaining wager of a queue.
pub open spec fn bet_wager_fn() -> spec_fn(Bet) -> int {
    |b: Bet| b.wager as int
}

/// Contribution of one bet to `who`'s count of open bets.
pub open spec fn bet_count_fn(who: AccountId) -> spec_fn(Bet) -> int {
    |b: Bet| if b.bettor == who { 1int } else { 0int }
}

/// Contribution of one bet to `who`'s remaining queued wager.
pub open spec fn bet_of_fn(who: AccountId) -> spec_fn(Bet) -> int {
    |b: Bet| if b.bettor == who { b.wager as int } else { 0int }
}

/// Total remaining wager sitting in a queue.
pub open spec fn queue_wager_sum(q: Seq<Bet>) -> int {
    sum_int(q.map_values(bet_wager_fn()))
}

/// How many bets of `who` a queue holds.
pub open spec fn bettor_count(q: Seq<Bet>, who: AccountId) -> int {
    sum_int(q.map_values(bet_count_fn(who)))
}

/// Total remaining wager of `who`'s bets in a queue.
pub open spec fn bettor_wager_sum(q: Seq<Bet>, who: AccountId) -> int {
    sum_int(q.map_values(bet_of_fn(who)))
}

/// Lift a position field to a keyed entry.
pub open spec fn entry_fn(f: spec_fn(Position) -> int) -> spec_fn((AccountId, Position)) -> int {
    |e: (AccountId, Position)| f(e.1)
}

/// The position fields the book's totals account for.
pub open spec fn pos_wager_fn() -> spec_fn(Position) -> int {
    |p: Position| p.wager as int
}

pub open spec fn pos_dealt_fn() -> spec_fn(Position) -> int {
    |p: Position| p.dealt_wager as int
}

pub open spec fn pos_payout_for_fn() -> spec_fn(Position) -> int {
    |p: Position| p.payout_for as int
}

pub open spec fn pos_payout_against_fn() -> spec_fn(Position) -> int {
    |p: Position| p.payout_against as int
}

pub open spec fn pos_dispute_fn() -> spec_fn(Position) -> int {
    |p: Position| p.dispute_stake as int
}

/// Sum of one numeric field over all positions.
pub open spec fn pos_sum(s: Seq<(AccountId, Position)>, f: spec_fn(Position) -> int) -> int {
    sum_int(s.map_values(entry_fn(f)))
}

/// Contribution of one oracle entry to the registered stake.
pub open spec fn oracle_stake_fn() -> spec_fn((AccountId, Oracle)) -> int {
    |e: (AccountId, Oracle)| e.1.stake as int
}

/// Contribution of one oracle entry to the stake behind vote `v`.
pub open spec fn vote_stake_fn(v: Option<BetOutcome>) -> spec_fn((AccountId, Oracle)) -> int {
    |e: (AccountId, Oracle)| if e.1.outcome == v { e.1.stake as int } else { 0int }
}

/// Sum of all registered oracle stakes.
pub open spec fn oracle_stake_sum(s: Seq<(AccountId, Oracle)>) -> int {
    sum_int(s.map_values(oracle_stake_fn()))
}

/// Total stake behind one vote value.
pub open spec fn vote_stake_sum(s: Seq<(AccountId, Oracle)>, v: Option<BetOutcome>) -> int {
    sum_int(s.map_values(vote_stake_fn(v)))
}

/// A queue is well formed when it is strictly sorted by id, holds no
/// exhausted bet, and every id's sequence number is in the past of the
/// book's placement counter (which is what makes future ids fresh).
pub open spec fn queue_wf(q: Seq<Bet>, bets_count: u32) -> bool {
    &&& forall|i: int, j: int| 0 <= i < j < q.len() ==> q[i].id < q[j].id
    &&& forall|i: int| 0 <= i < q.len() ==> (#[trigger] q[i]).wager > 0
    &&& forall|i: int| 0 <= i < q.len() ==> id_seq((#[trigger] q[i]).id) < bets_count
}

impl Book {
    /// Collateral and bookkeeping invariant of the book.
    pub open spec fn wf(self) -> bool {
        &&& queue_wf(self.bets_for@, self.bets_count)
        &&& queue_wf(self.bets_against@, self.bets_count)
        &&& kv_distinct(self.positions@)
        &&& kv_distinct(self.oracles@)
        &&& forall|i: int|
            0 <= i < self.bets_for@.len() ==> kv_has(
                self.positions@,
                (#[trigger] self.bets_for@[i]).bettor,
            )
        &&& forall|i: int|
            0 <= i < self.bets_against@.len() ==> kv_has(
                self.positions@,
                (#[trigger] self.bets_against@[i]).bettor,
            )
        &&& forall|i: int|
            0 <= i < self.positions@.len() ==> position_wf(
                (#[trigger] self.positions@[i]).1,
                self.positions@[i].0,
                self,
            )
        &&& self.payout_for_total <= self.dealt_wager
        &&& self.payout_against_total <= self.dealt_wager
        &&& self.dealt_wager + queue_wager_sum(self.bets_for@) + queue_wager_sum(
            self.bets_against@,
        ) <= self.wager_total
        &&& pos_sum(self.positions@, pos_wager_fn()) <= self.wager_total
        &&& pos_sum(self.positions@, pos_dealt_fn()) <= self.dealt_wager
        &&& pos_sum(self.positions@, pos_payout_for_fn()) <= self.payout_for_total
        &&& pos_sum(self.positions@, pos_payout_against_fn()) <= self.payout_against_total
        &&& pos_sum(self.positions@, pos_dispute_fn()) <= self.total_dispute_stake
        &&& forall|i: int| 0 <= i < self.oracles@.len() ==> (#[trigger] self.oracles@[i]).1.stake > 0
        &&& oracle_stake_sum(self.oracles@) <= self.total_oracle_stake
        &&& self.concluded_at.is_some() == self.aggregated_oracle_outcome.is_some()
        &&& self.concluded_at.is_some() ==> self.concluded_at.unwrap()
            + crate::constants::BETTOR_DISPUTE_WINDOW <= i64::MAX
    }

    /// Serialized size of the book in its current shape.
    pub open spec fn space(self) -> int {
        BOOK_BASE_SPACE + ORACLE_ENTRY_SPACE * self.oracles@.len() + BET_SPACE * (
        self.bets_for@.len() + self.bets_against@.len()) + POSITION_ENTRY_SPACE
            * self.positions@.len()
    }

    /// Serialized size of the book in its current shape.
    pub fn current_space(&self) -> (r: usize)
        requires
            self.space() <= usize::MAX,
        ensures
            r == self.space(),
    {
        BOOK_BASE_SPACE + ORACLE_ENTRY_SPACE * self.oracles.len() + BET_SPACE * (
        self.bets_for.len() + self.bets_against.len()) + POSITION_ENTRY_SPACE
            * self.positions.len()
    }
}

/// Per-position bookkeeping invariant, relative to the queues of the
/// book that owns it: the active-bet counter matches the queues, and the
/// position's total wager covers both its matched collateral and its
/// wagers still queued.
pub open spec fn position_wf(p: Position, who: AccountId, b: Book) -> bool {
    &&& p.active_bets_count == bettor_count(b.bets_for@, who) + bettor_count(
        b.bets_against@,
        who,
    )
    &&& p.wager >= p.dealt_wager + bettor_wager_sum(b.bets_for@, who) + bettor_wager_sum(
        b.bets_against@,
        who,
    )
    &&& p.bets_count <= b.bets_count
    &&& p.active_bets_count <= p.bets_count
}

/// A freshly initiated book: empty collections, zero counters, market
/// open.
pub fn book_init(game_id: u32, initiator: AccountId, bet_type: BetType) -> (b: Book)
    ensures
        b.wf(),
        fully_accounted(b),
        b.game_id == game_id,
        b.initiator == initiator,
        b.bet_type == bet_type,
        b.bets_count == 0,
        b.wager_total == 0,
        b.payout_for_total == 0,
        b.payout_against_total == 0,
        b.dealt_wager == 0,
        b.total_oracle_stake == 0,
        b.total_dispute_stake == 0,
        b.dispute_resolution_result.is_none(),
        b.aggregated_oracle_outcome.is_none(),
        b.concluded_at.is_none(),
        b.oracles@.len() == 0,
        b.bets_for@.len() == 0,
        b.bets_against@.len() == 0,
        b.positions@.len() == 0,
{
    let b = Book {
        game_id,
        initiator,
        bets_count: 0,
        wager_total: 0,
        payout_for_total: 0,
        payout_against_total: 0,
        dealt_wager: 0,
        bet_type,
        total_oracle_stake: 0,
        total_dispute_stake: 0,
        dispute_resolution_result: None,
        aggregated_oracle_outcome: None,
        concluded_at: None,
        oracles: Vec::new(),
        bets_for: Vec::new(),
        bets_against: Vec::new(),
        positions: Vec::new(),
    };
    proof {
        lemma_empty_book_sums(b);
    }
    b
}

/// The identity of the book never changes.
pub open spec fn identity_eq(a: Book, b: Book) -> bool {
    &&& a.game_id == b.game_id
    &&& a.initiator == b.initiator
    &&& a.bet_type == b.bet_type
}

/// The oracle half of the book: registrations, their total stake, the
/// consensus snapshot and the conclusion stamp.
pub open spec fn oracle_state_eq(a: Book, b: Book) -> bool {
    &&& a.oracles@ == b.oracles@
    &&& a.total_oracle_stake == b.total_oracle_stake
    &&& a.aggregated_oracle_outcome == b.aggregated_oracle_outcome
    &&& a.concluded_at == b.concluded_at
}

/// The dispute half of the book.
pub open spec fn dispute_state_eq(a: Book, b: Book) -> bool {
    &&& a.total_dispute_stake == b.total_dispute_stake
    &&& a.dispute_resolution_result == b.dispute_resolution_result
}

/// The matching half of the book: queues, positions and counters.
pub open spec fn matching_state_eq(a: Book, b: Book) -> bool {
    &&& a.bets_for@ == b.bets_for@
    &&& a.bets_against@ == b.bets_against@
    &&& a.positions@ == b.positions@
    &&& a.bets_count == b.bets_count
    &&& a.wager_total == b.wager_total
    &&& a.payout_for_total == b.payout_for_total
    &&& a.payout_against_total == b.payout_against_total
    &&& a.dealt_wager == b.dealt_wager
}

/// A position after a fill on the `for` side: `payout` promised,
/// `dealt` of its wager collateralized, and its bet gone from the queue
/// when fully consumed.
pub open spec fn position_filled_for(p: Position, payout: int, dealt: int, consumed: bool) -> Position {
    Position {
        payout_for: (p.payout_for + payout) as u64,
        dealt_wager: (p.dealt_wager + dealt) as u64,
        active_bets_count: if consumed {
            (p.active_bets_count - 1) as u32
        } else {
            p.active_bets_count
        },
        ..p
    }
}

/// A position after a fill on the `against` side.
pub open spec fn position_filled_against(p: Position, payout: int, dealt: int, consumed: bool) -> Position {
    Position {
        payout_against: (p.payout_against + payout) as u64,
        dealt_wager: (p.dealt_wager + dealt) as u64,
        active_bets_count: if consumed {
            (p.active_bets_count - 1) as u32
        } else {
            p.active_bets_count
        },
        ..p
    }
}

/// A position after one more wager of `wager` is placed.
pub open spec fn position_after_bet(p: Position, wager: u64) -> Position {
    Position {
        active_bets_count: (p.active_bets_count + 1) as u32,
        bets_count: (p.bets_count + 1) as u32,
        wager: (p.wager + wager) as u64,
        ..p
    }
}

/// Some bet in the queue has this id.
pub open spec fn queue_has_id(q: Seq<Bet>, id: u64) -> bool {
    exists|i: int| 0 <= i < q.len() && q[i].id == id
}

/// Index of the bet with this id (meaningful only when `queue_has_id`).
pub open spec fn queue_id_idx(q: Seq<Bet>, id: u64) -> int {
    choose|i: int| 0 <= i < q.len() && q[i].id == id
}

/// In a strictly sorted queue, any index holding an id is the index of
/// that id.
pub proof fn lemma_queue_id_idx_unique(q: Seq<Bet>, i: int)
    requires
        forall|a: int, b: int| 0 <= a < b < q.len() ==> q[a].id < q[b].id,
        0 <= i < q.len(),
    ensures
        queue_has_id(q, q[i].id),
        queue_id_idx(q, q[i].id) == i,
{
    assert(queue_has_id(q, q[i].id));
    let j = queue_id_idx(q, q[i].id);
    if i < j {
        assert(q[i].id < q[j].id);
    } else if j < i {
        assert(q[j].id < q[i].id);
    }
}

/// Removing the bet at any index: order, positivity and freshness are
/// kept, and every per-bettor sum drops by that bet's contribution.
pub proof fn lemma_queue_remove_at(q: Seq<Bet>, i: int, bc: u32)
    requires
        queue_wf(q, bc),
        0 <= i < q.len(),
    ensures
        queue_wf(q.remove(i), bc),
        queue_wager_sum(q.remove(i)) == queue_wager_sum(q) - q[i].wager,
        forall|who: AccountId| #[trigger]
            bettor_count(q.remove(i), who) == bettor_count(q, who) - (if q[i].bettor == who {
                1int
            } else {
                0int
            }),
        forall|who: AccountId| #[trigger]
            bettor_wager_sum(q.remove(i), who) == bettor_wager_sum(q, who) - (
            if q[i].bettor == who {
                q[i].wager as int
            } else {
                0int
            }),
        forall|j: int|
            0 <= j < q.remove(i).len() ==> (#[trigger] q.remove(i)[j]) == (if j < i {
                q[j]
            } else {
                q[j + 1]
            }),
{
    let t = q.remove(i);
    q.remove_ensures(i);
    crate::sums::lemma_map_sum_remove(q, i, bet_wager_fn());
    assert forall|who: AccountId| #[trigger]
        bettor_count(t, who) == bettor_count(q, who) - (if q[i].bettor == who {
            1int
        } else {
            0int
        }) by {
        crate::sums::lemma_map_sum_remove(q, i, bet_count_fn(who));
    }
    assert forall|who: AccountId| #[trigger]
        bettor_wager_sum(t, who) == bettor_wager_sum(q, who) - (if q[i].bettor == who {
            q[i].wager as int
        } else {
            0int
        }) by {
        crate::sums::lemma_map_sum_remove(q, i, bet_of_fn(who));
    }
}

/// Insert a bet into a queue, keeping ascending id order. Returns the
/// index at which the bet now sits.
fn queue_insert(q: &mut Vec<Bet>, nb: Bet) -> (k: usize)
    requires
        forall|i: int, j: int| 0 <= i < j < old(q)@.len() ==> old(q)@[i].id < old(q)@[j].id,
        forall|i: int| 0 <= i < old(q)@.len() ==> (#[trigger] old(q)@[i]).id != nb.id,
    ensures
        0 <= k <= old(q)@.len(),
        final(q)@ == old(q)@.insert(k as int, nb),
        forall|j: int| 0 <= j < k ==> (#[trigger] old(q)@[j]).id < nb.id,
        forall|j: int| k <= j < old(q)@.len() ==> (#[trigger] old(q)@[j]).id > nb.id,
{
    let mut k: usize = 0;
    while k < q.len() && q[k].id < nb.id
        invariant
            0 <= k <= q@.len(),
            forall|j: int| 0 <= j < k ==> (#[trigger] q@[j]).id < nb.id,
        decreases q@.len() - k,
    {
        k = k + 1;
    }
    assert forall|j: int| k <= j < q@.len() implies (#[trigger] q@[j]).id > nb.id by {
        if j == k {
            assert(q@[j].id >= nb.id);
        } else {
            assert(q@[k as int].id < q@[j].id);
            assert(q@[k as int].id >= nb.id);
        }
    }
    q.insert(k, nb);
    k
}

/// Effect of a sorted insertion on a queue's well-formedness and sums.
proof fn lemma_queue_insert_wf(q: Seq<Bet>, k: int, nb: Bet, bc: u32)
    requires
        queue_wf(q, bc),
        bc < u32::MAX,
        0 <= k <= q.len(),
        forall|j: int| 0 <= j < k ==> (#[trigger] q[j]).id < nb.id,
        forall|j: int| k <= j < q.len() ==> (#[trigger] q[j]).id > nb.id,
        nb.wager > 0,
        id_seq(nb.id) == bc,
    ensures
        queue_wf(q.insert(k, nb), (bc + 1) as u32),
        queue_wager_sum(q.insert(k, nb)) == queue_wager_sum(q) + nb.wager,
        forall|who: AccountId| #[trigger]
            bettor_count(q.insert(k, nb), who) == bettor_count(q, who) + (if nb.bettor == who {
                1int
            } else {
                0int
            }),
        forall|who: AccountId| #[trigger]
            bettor_wager_sum(q.insert(k, nb), who) == bettor_wager_sum(q, who) + (
            if nb.bettor == who {
                nb.wager as int
            } else {
                0int
            }),
{
    let t = q.insert(k, nb);
    q.insert_ensures(k, nb);
    assert forall|i: int, j: int| 0 <= i < j < t.len() implies t[i].id < t[j].id by {
        if j < k {
        } else if i < k && j == k {
        } else if i < k && j > k {
            assert(t[j] == q[j - 1]);
        } else if i == k {
            assert(t[j] == q[j - 1]);
        } else {
            assert(t[i] == q[i - 1]);
            assert(t[j] == q[j - 1]);
        }
    }
    assert forall|i: int| 0 <= i < t.len() implies (#[trigger] t[i]).wager > 0 && id_seq(
        t[i].id,
    ) < bc + 1 by {
        if i < k {
            assert(t[i] == q[i]);
        } else if i == k {
        } else {
            assert(t[i] == q[i - 1]);
        }
    }
    crate::sums::lemma_map_sum_insert(q, k, nb, bet_wager_fn());
    assert forall|who: AccountId| #[trigger]
        bettor_count(t, who) == bettor_count(q, who) + (if nb.bettor == who {
            1int
        } else {
            0int
        }) by {
        crate::sums::lemma_map_sum_insert(q, k, nb, bet_count_fn(who));
    }
    assert forall|who: AccountId| #[trigger]
        bettor_wager_sum(t, who) == bettor_wager_sum(q, who) + (if nb.bettor == who {
            nb.wager as int
        } else {
            0int
        }) by {
        crate::sums::lemma_map_sum_insert(q, k, nb, bet_of_fn(who));
    }
}

/// All sums over empty collections are zero.
proof fn lemma_empty_book_sums(b: Book)
    requires
        b.oracles@.len() == 0,
        b.bets_for@.len() == 0,
        b.bets_against@.len() == 0,
        b.positions@.len() == 0,
    ensures
        queue_wager_sum(b.bets_for@) == 0,
        queue_wager_sum(b.bets_against@) == 0,
        oracle_stake_sum(b.oracles@) == 0,
        forall|f: spec_fn(Position) -> int| #[trigger] pos_sum(b.positions@, f) == 0,
{
    assert(b.bets_for@.map_values(bet_wager_fn()) =~= Seq::<int>::empty());
    assert(b.bets_against@.map_values(bet_wager_fn()) =~= Seq::<int>::empty());
    assert(b.oracles@.map_values(oracle_stake_fn()) =~= Seq::<int>::empty());
    assert forall|f: spec_fn(Position) -> int| #[trigger] pos_sum(b.positions@, f) == 0 by {
        assert(b.positions@.map_values(entry_fn(f)) =~= Seq::<int>::empty());
    }
}

/// Exactly what accepting a new wager does to the book.
pub open spec fn new_bet_rel(
    pre: Book,
    post: Book,
    odds: u32,
    wager: u64,
    bettor: AccountId,
    bet_direction: BetDirection,
) -> bool {
    &&& identity_eq(pre, post)
    &&& oracle_state_eq(pre, post)
    &&& dispute_state_eq(pre, post)
    &&& post.bets_count == pre.bets_count + 1
    &&& post.wager_total == pre.wager_total + wager
    &&& post.payout_for_total == pre.payout_for_total
    &&& post.payout_against_total == pre.payout_against_total
    &&& post.dealt_wager == pre.dealt_wager
    &&& post.positions@ == pre.positions@.update(
        kv_idx(pre.positions@, bettor),
        (bettor, position_after_bet(kv_get(pre.positions@, bettor), wager)),
    )
    &&& ({
        let nb = Bet { id: bet_id_for(odds, pre.bets_count) as u64, bettor, wager };
        match bet_direction {
            BetDirection::For => post.bets_against@ == pre.bets_against@ && exists|k: int|
                0 <= k <= pre.bets_for@.len() && post.bets_for@ == pre.bets_for@.insert(k, nb),
            BetDirection::Against => post.bets_for@ == pre.bets_for@ && exists|k: int|
                0 <= k <= pre.bets_against@.len() && post.bets_against@
                    == pre.bets_against@.insert(k, nb),
        }
    })
}

impl Book {
    /// Accept a new wager: construct the bet, queue it in id order on
    /// the chosen side, and advance the book's and the bettor's
    /// counters. The id is fresh by construction — its low half is the
    /// placement counter, which every queued id's low half is below —
    /// so the sorted insertion can never collide.
    pub fn new_bet(&mut self, odds: u32, wager: u64, bettor: AccountId, bet_direction: BetDirection)
        requires
            old(self).wf(),
            kv_has(old(self).positions@, bettor),
            wager > 0,
            old(self).bets_count < u32::MAX,
            old(self).wager_total + wager <= u64::MAX,
        ensures
            final(self).wf(),
            new_bet_rel(*old(self), *final(self), odds, wager, bettor, bet_direction),
            fully_accounted(*old(self)) ==> fully_accounted(*final(self)),
    {
        let ghost pre = *self;
        let id: u64 = (odds as u64) * BET_ID_ODDS_FACTOR + (self.bets_count as u64);
        let nb = Bet { id, bettor, wager };
        proof {
            vstd::arithmetic::div_mod::lemma_fundamental_div_mod_converse(
                id as int,
                0x1_0000_0000,
                odds as int,
                self.bets_count as int,
            );
            assert(id_seq(id) == self.bets_count);
            assert(id_odds(id) == odds);
        }
        let k: usize = match bet_direction {
            BetDirection::For => queue_insert(&mut self.bets_for, nb),
            BetDirection::Against => queue_insert(&mut self.bets_against, nb),
        };
        self.bets_count = self.bets_count + 1;
        self.wager_total = self.wager_total + wager;
        let i: usize = kv_find(&self.positions, bettor).unwrap();
        proof {
            lemma_kv_idx_unique(pre.positions@, i as int);
            crate::sums::lemma_map_sum_bounds(pre.positions@, entry_fn(pos_wager_fn()));
            assert(position_wf(pre.positions@[i as int].1, bettor, pre));
        }
        let p0: Position = self.positions[i].1;
        let p1 = Position {
            active_bets_count: p0.active_bets_count + 1,
            bets_count: p0.bets_count + 1,
            wager: p0.wager + wager,
            ..p0
        };
        self.positions.set(i, (bettor, p1));
        proof {
            let post = *self;
            lemma_kv_update(pre.positions@, i as int, p1);
            crate::sums::lemma_map_sum_update(
                pre.positions@,
                i as int,
                (bettor, p1),
                entry_fn(pos_wager_fn()),
            );
            crate::sums::lemma_map_sum_update(
                pre.positions@,
                i as int,
                (bettor, p1),
                entry_fn(pos_dealt_fn()),
            );
            crate::sums::lemma_map_sum_update(
                pre.positions@,
                i as int,
                (bettor, p1),
                entry_fn(pos_payout_for_fn()),
            );
            crate::sums::lemma_map_sum_update(
                pre.positions@,
                i as int,
                (bettor, p1),
                entry_fn(pos_payout_against_fn()),
            );
            crate::sums::lemma_map_sum_update(
                pre.positions@,
                i as int,
                (bettor, p1),
                entry_fn(pos_dispute_fn()),
            );
            match bet_direction {
                BetDirection::For => {
                    assert forall|j: int| 0 <= j < pre.bets_for@.len() implies (
                    #[trigger] pre.bets_for@[j]).id != nb.id by {
                        assert(id_seq(pre.bets_for@[j].id) < pre.bets_count);
                    }
                    lemma_new_bet_wf(pre, post, k as int, nb, i as int, true);
                }
                BetDirection::Against => {
                    assert forall|j: int| 0 <= j < pre.bets_against@.len() implies (
                    #[trigger] pre.bets_against@[j]).id != nb.id by {
                        assert(id_seq(pre.bets_against@[j].id) < pre.bets_count);
                    }
                    lemma_new_bet_wf(pre, post, k as int, nb, i as int, false);
                }
            }
        }
    }
}

/// The book is still well formed after a new bet: the queue that grew
/// was given a fresh, sorted-in id and a positive wager, the bettor's
/// position absorbed the new wager, and every total moved by exactly
/// that wager.
proof fn lemma_new_bet_wf(pre: Book, post: Book, k: int, nb: Bet, i: int, dirfor: bool)
    requires
        pre.wf(),
        pre.bets_count < u32::MAX,
        pre.wager_total + nb.wager <= u64::MAX,
        0 <= i < pre.positions@.len(),
        pre.positions@[i].0 == nb.bettor,
        nb.wager > 0,
        id_seq(nb.id) == pre.bets_count,
        post.bets_count == pre.bets_count + 1,
        post.wager_total == pre.wager_total + nb.wager,
        post.payout_for_total == pre.payout_for_total,
        post.payout_against_total == pre.payout_against_total,
        post.dealt_wager == pre.dealt_wager,
        oracle_state_eq(pre, post),
        dispute_state_eq(pre, post),
        post.positions@ == pre.positions@.update(
            i,
            (nb.bettor, position_after_bet(pre.positions@[i].1, nb.wager)),
        ),
        dirfor ==> 0 <= k <= pre.bets_for@.len() && (forall|j: int|
            0 <= j < k ==> (#[trigger] pre.bets_for@[j]).id < nb.id) && (forall|j: int|
            k <= j < pre.bets_for@.len() ==> (#[trigger] pre.bets_for@[j]).id > nb.id)
            && post.bets_for@ == pre.bets_for@.insert(k, nb) && post.bets_against@
            == pre.bets_against@,
        !dirfor ==> 0 <= k <= pre.bets_against@.len() && (forall|j: int|
            0 <= j < k ==> (#[trigger] pre.bets_against@[j]).id < nb.id) && (forall|j: int|
            k <= j < pre.bets_against@.len() ==> (#[trigger] pre.bets_against@[j]).id > nb.id)
            && post.bets_against@ == pre.bets_against@.insert(k, nb) && post.bets_for@
            == pre.bets_for@,
    ensures
        post.wf(),
{
    let q_old = if dirfor { pre.bets_for@ } else { pre.bets_against@ };
    let q_new = q_old.insert(k, nb);
    let q_same = if dirfor { pre.bets_against@ } else { pre.bets_for@ };
    let p1 = position_after_bet(pre.positions@[i].1, nb.wager);
    if dirfor {
        assert(forall|j: int| 0 <= j < k ==> (#[trigger] q_old[j]).id < nb.id);
        assert(forall|j: int| k <= j < q_old.len() ==> (#[trigger] q_old[j]).id > nb.id);
    } else {
        assert(forall|j: int| 0 <= j < k ==> (#[trigger] q_old[j]).id < nb.id);
        assert(forall|j: int| k <= j < q_old.len() ==> (#[trigger] q_old[j]).id > nb.id);
    }
    lemma_queue_insert_wf(q_old, k, nb, pre.bets_count);
    q_old.insert_ensures(k, nb);
    lemma_kv_update(pre.positions@, i, p1);
    lemma_kv_idx_unique(pre.positions@, i);
    crate::sums::lemma_map_sum_update(pre.positions@, i, (nb.bettor, p1), entry_fn(pos_wager_fn()));
    crate::sums::lemma_map_sum_update(pre.positions@, i, (nb.bettor, p1), entry_fn(pos_dealt_fn()));
    crate::sums::lemma_map_sum_update(
        pre.positions@,
        i,
        (nb.bettor, p1),
        entry_fn(pos_payout_for_fn()),
    );
    crate::sums::lemma_map_sum_update(
        pre.positions@,
        i,
        (nb.bettor, p1),
        entry_fn(pos_payout_against_fn()),
    );
    crate::sums::lemma_map_sum_update(
        pre.positions@,
        i,
        (nb.bettor, p1),
        entry_fn(pos_dispute_fn()),
    );
    // every bet in the grown queue still has a position
    assert forall|j: int|
        0 <= j < q_new.len() implies kv_has(post.positions@, (#[trigger] q_new[j]).bettor) by {
        if j == k {
            assert(q_new[j].bettor == nb.bettor);
        } else {
            let j0 = if j < k { j } else { j - 1 };
            assert(q_new[j] == q_old[j0]);
            assert(kv_has(pre.positions@, q_old[j0].bettor));
        }
    }
    assert forall|j: int|
        0 <= j < q_same.len() implies kv_has(post.positions@, (#[trigger] q_same[j]).bettor) by {
        assert(kv_has(pre.positions@, q_same[j].bettor));
    }
    // per-position bookkeeping
    assert forall|j: int|
        0 <= j < post.positions@.len() implies position_wf(
        (#[trigger] post.positions@[j]).1,
        post.positions@[j].0,
        post,
    ) by {
        let who = post.positions@[j].0;
        assert(position_wf(pre.positions@[j].1, pre.positions@[j].0, pre));
        lemma_position_bounds(pre, i);
        assert(bettor_count(q_new, who) == bettor_count(q_old, who) + (if nb.bettor == who {
            1int
        } else {
            0int
        }));
        assert(bettor_wager_sum(q_new, who) == bettor_wager_sum(q_old, who) + (
        if nb.bettor == who {
            nb.wager as int
        } else {
            0int
        }));
        if j != i {
            assert(post.positions@[j] == pre.positions@[j]);
            assert(pre.positions@[j].0 != nb.bettor) by {
                lemma_kv_idx_unique(pre.positions@, i);
                lemma_kv_idx_unique(pre.positions@, j);
            }
            if dirfor {
                assert(bettor_count(post.bets_for@, who) == bettor_count(pre.bets_for@, who));
                assert(bettor_count(post.bets_against@, who) == bettor_count(
                    pre.bets_against@,
                    who,
                ));
                assert(bettor_wager_sum(post.bets_for@, who) == bettor_wager_sum(
                    pre.bets_for@,
                    who,
                ));
            } else {
                assert(bettor_count(post.bets_against@, who) == bettor_count(
                    pre.bets_against@,
                    who,
                ));
                assert(bettor_wager_sum(post.bets_against@, who) == bettor_wager_sum(
                    pre.bets_against@,
                    who,
                ));
            }
        } else {
            assert(who == nb.bettor);
            assert(post.positions@[i].1 == p1);
            assert(p1.wager == pre.positions@[i].1.wager + nb.wager);
            assert(p1.active_bets_count == pre.positions@[i].1.active_bets_count + 1) by {
                assert(pre.positions@[i].1.active_bets_count <= pre.positions@[i].1.bets_count
                    <= pre.bets_count < u32::MAX);
            }
            assert(p1.bets_count == pre.positions@[i].1.bets_count + 1);
            if dirfor {
                assert(bettor_count(post.bets_for@, who) == bettor_count(pre.bets_for@, who)
                    + 1);
                assert(bettor_count(post.bets_against@, who) == bettor_count(
                    pre.bets_against@,
                    who,
                ));
                assert(bettor_wager_sum(post.bets_for@, who) == bettor_wager_sum(
                    pre.bets_for@,
                    who,
                ) + nb.wager);
            } else {
                assert(bettor_count(post.bets_against@, who) == bettor_count(
                    pre.bets_against@,
                    who,
                ) + 1);
                assert(bettor_wager_sum(post.bets_against@, who) == bettor_wager_sum(
                    pre.bets_against@,
                    who,
                ) + nb.wager);
            }
        }
    }
}

/// The fixed order of vote values: unvoted, then each decided outcome.
/// An exact tie of grouped stakes is won by the vote latest in this
/// order.
pub open spec fn vote_rank(v: Option<BetOutcome>) -> int {
    match v {
        None => 0,
        Some(BetOutcome::For) => 1,
        Some(BetOutcome::Cancel) => 2,
        Some(BetOutcome::Against) => 3,
    }
}

/// The stake-weighted consensus of a set of oracle registrations: the
/// vote group with the largest total stake, exact ties broken by
/// `vote_rank`.
pub open spec fn consensus_of(s: Seq<(AccountId, Oracle)>) -> Option<BetOutcome> {
    let n = vote_stake_sum(s, None);
    let f = vote_stake_sum(s, Some(BetOutcome::For));
    let c = vote_stake_sum(s, Some(BetOutcome::Cancel));
    let a = vote_stake_sum(s, Some(BetOutcome::Against));
    if a >= c && a >= f && a >= n {
        Some(BetOutcome::Against)
    } else if c >= f && c >= n {
        Some(BetOutcome::Cancel)
    } else if f >= n {
        Some(BetOutcome::For)
    } else {
        None
    }
}

/// The consensus group's stake is maximal, and in particular positive
/// whenever any oracle is registered.
pub proof fn lemma_consensus_is_max(s: Seq<(AccountId, Oracle)>)
    requires
        forall|i: int| 0 <= i < s.len() ==> (#[trigger] s[i]).1.stake > 0,
    ensures
        forall|v: Option<BetOutcome>| #[trigger]
            vote_stake_sum(s, v) <= vote_stake_sum(s, consensus_of(s)),
        s.len() > 0 ==> vote_stake_sum(s, consensus_of(s)) > 0,
{
    assert forall|v: Option<BetOutcome>| #[trigger]
        vote_stake_sum(s, v) <= vote_stake_sum(s, consensus_of(s)) by {
        lemma_vote_is_one_of(v);
    }
    if s.len() > 0 {
        let w = s[0].1.outcome;
        lemma_vote_is_one_of(w);
        assert forall|j: int|
            0 <= j < s.len() implies vote_stake_fn(w)(#[trigger] s[j]) >= 0 by {}
        crate::sums::lemma_map_sum_bounds(s, vote_stake_fn(w));
        assert(vote_stake_fn(w)(s[0]) == s[0].1.stake as int);
        assert(vote_stake_sum(s, w) > 0);
    }
}

/// There are only four vote values.
pub proof fn lemma_vote_is_one_of(v: Option<BetOutcome>)
    ensures
        v == Option::<BetOutcome>::None || v == Some(BetOutcome::For) || v == Some(
            BetOutcome::Cancel,
        ) || v == Some(BetOutcome::Against),
{
}

impl Book {
    /// Group the current oracle votes (the unvoted group included) by
    /// vote value, sum the stake behind each group, and return the vote
    /// of the heaviest group; an exact tie is won by the group latest in
    /// the fixed vote order.
    pub fn aggregated_outcome(&self) -> (r: Option<BetOutcome>)
        requires
            self.wf(),
            self.oracles@.len() > 0,
        ensures
            r == consensus_of(self.oracles@),
    {
        let s = &self.oracles;
        let ghost sv = self.oracles@;
        let mut n: u64 = 0;
        let mut f: u64 = 0;
        let mut c: u64 = 0;
        let mut a: u64 = 0;
        let mut i: usize = 0;
        proof {
            assert(sv.take(0) =~= Seq::<(AccountId, Oracle)>::empty());
            assert(sv.take(0).map_values(vote_stake_fn(None)) =~= Seq::<int>::empty());
            assert(sv.take(0).map_values(vote_stake_fn(Some(BetOutcome::For)))
                =~= Seq::<int>::empty());
            assert(sv.take(0).map_values(vote_stake_fn(Some(BetOutcome::Cancel)))
                =~= Seq::<int>::empty());
            assert(sv.take(0).map_values(vote_stake_fn(Some(BetOutcome::Against)))
                =~= Seq::<int>::empty());
            assert(sv.take(0).map_values(oracle_stake_fn()) =~= Seq::<int>::empty());
        }
        while i < s.len()
            invariant
                self.wf(),
                s == self.oracles,
                sv == self.oracles@,
                0 <= i <= sv.len(),
                n == vote_stake_sum(sv.take(i as int), None),
                f == vote_stake_sum(sv.take(i as int), Some(BetOutcome::For)),
                c == vote_stake_sum(sv.take(i as int), Some(BetOutcome::Cancel)),
                a == vote_stake_sum(sv.take(i as int), Some(BetOutcome::Against)),
                n + f + c + a == sum_int(sv.take(i as int).map_values(oracle_stake_fn())),
            decreases sv.len() - i,
        {
            let stake = s[i].1.stake;
            proof {
                assert(sv.take(i + 1) =~= sv.take(i as int).push(sv[i as int]));
                crate::sums::lemma_map_sum_push(sv.take(i as int), sv[i as int], vote_stake_fn(None));
                crate::sums::lemma_map_sum_push(
                    sv.take(i as int),
                    sv[i as int],
                    vote_stake_fn(Some(BetOutcome::For)),
                );
                crate::sums::lemma_map_sum_push(
                    sv.take(i as int),
                    sv[i as int],
                    vote_stake_fn(Some(BetOutcome::Cancel)),
                );
                crate::sums::lemma_map_sum_push(
                    sv.take(i as int),
                    sv[i as int],
                    vote_stake_fn(Some(BetOutcome::Against)),
                );
                crate::sums::lemma_map_sum_push(sv.take(i as int), sv[i as int], oracle_stake_fn());
                assert(forall|j: int|
                    0 <= j < sv.len() ==> oracle_stake_fn()(#[trigger] sv[j]) >= 0);
                crate::sums::lemma_map_sum_prefix_le(sv, i + 1, oracle_stake_fn());
                assert(sum_int(sv.map_values(oracle_stake_fn())) <= self.total_oracle_stake);
            }
            match s[i].1.outcome {
                None => {
                    n = n + stake;
                },
                Some(BetOutcome::For) => {
                    f = f + stake;
                },
                Some(BetOutcome::Cancel) => {
                    c = c + stake;
                },
                Some(BetOutcome::Against) => {
                    a = a + stake;
                },
            }
            i = i + 1;
        }
        proof {
            assert(sv.take(sv.len() as int) =~= sv);
        }
        if a >= c && a >= f && a >= n {
            Some(BetOutcome::Against)
        } else if c >= f && c >= n {
            Some(BetOutcome::Cancel)
        } else if f >= n {
            Some(BetOutcome::For)
        } else {
            None
        }
    }
}

/// Each position's accounted fields are bounded by the book's totals.
pub proof fn lemma_position_bounds(b: Book, i: int)
    requires
        b.wf(),
        0 <= i < b.positions@.len(),
    ensures
        b.positions@[i].1.wager <= b.wager_total,
        b.positions@[i].1.dealt_wager <= b.dealt_wager,
        b.positions@[i].1.payout_for <= b.payout_for_total,
        b.positions@[i].1.payout_against <= b.payout_against_total,
        b.positions@[i].1.dispute_stake <= b.total_dispute_stake,
{
    let s = b.positions@;
    assert(forall|j: int|
        0 <= j < s.len() ==> entry_fn(pos_wager_fn())(#[trigger] s[j]) >= 0);
    crate::sums::lemma_map_sum_bounds(s, entry_fn(pos_wager_fn()));
    assert(forall|j: int|
        0 <= j < s.len() ==> entry_fn(pos_dealt_fn())(#[trigger] s[j]) >= 0);
    crate::sums::lemma_map_sum_bounds(s, entry_fn(pos_dealt_fn()));
    assert(forall|j: int|
        0 <= j < s.len() ==> entry_fn(pos_payout_for_fn())(#[trigger] s[j]) >= 0);
    crate::sums::lemma_map_sum_bounds(s, entry_fn(pos_payout_for_fn()));
    assert(forall|j: int|
        0 <= j < s.len() ==> entry_fn(pos_payout_against_fn())(#[trigger] s[j]) >= 0);
    crate::sums::lemma_map_sum_bounds(s, entry_fn(pos_payout_against_fn()));
    assert(forall|j: int|
        0 <= j < s.len() ==> entry_fn(pos_dispute_fn())(#[trigger] s[j]) >= 0);
    crate::sums::lemma_map_sum_bounds(s, entry_fn(pos_dispute_fn()));
}

} // verus!
