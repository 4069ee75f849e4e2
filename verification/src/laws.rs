//! What holds of the auction as a whole, whatever operations are applied to it.
use crate::auction::{AuctionOutcome, ClosedAuction};
use crate::order_state::OrderBook;
use crate::settlement::{Settlement, SettlementOutcome};
use crate::types::{
    Bid, Order, OrderId, Timestamp, COMMITMENT_DURATION_SECS, ORDER_BATCH_SIZE,
};
use vstd::prelude::*;

verus! {

impl OrderBook {
    /// Whether the book holds anything under the id.
    pub open spec fn mentions(self, id: OrderId) -> bool {
        ||| exists|i: int| 0 <= i < self.pending.len() && (#[trigger] self.pending[i]).id == id
        ||| self.auction.contains_key(id)
        ||| self.bids.contains_key(id)
        ||| self.commitments.contains_key(id)
    }

    /// What every book keeps that is reached from the empty one.
    ///
    /// Everything is kept under the id of its order; an order waits, is in the auction or
    /// is committed, and only one of these; only the latter two have bids, and a list of
    /// bids that is kept holds one at least.
    pub open spec fn consistent(self) -> bool {
        &&& forall|id: OrderId| #[trigger]
            self.auction.contains_key(id) ==> self.auction[id].id == id
                && !self.commitments.contains_key(id)
        &&& forall|id: OrderId| #[trigger]
            self.commitments.contains_key(id) ==> self.commitments[id].order_id == id
        &&& forall|id: OrderId| #[trigger]
            self.bids.contains_key(id) ==> self.takes_bids(id) && self.bids[id].len() > 0
        &&& forall|id: OrderId, i: int|
            0 <= i < self.bids_for(id).len() ==> (#[trigger] self.bids_for(id)[i]).order_id == id
        &&& forall|i: int|
            0 <= i < self.pending.len() ==> !self.takes_bids((#[trigger] self.pending[i]).id)
        &&& forall|i: int, j: int|
            0 <= i < j < self.pending.len() ==> (#[trigger] self.pending[i]).id != (
            #[trigger] self.pending[j]).id
    }

    /// Whether the book holds nothing under an id that `earlier` did not mention.
    pub open spec fn adds_no_order_to(self, earlier: OrderBook) -> bool {
        forall|id: OrderId| #[trigger] self.mentions(id) ==> earlier.mentions(id)
    }

    /// Whether all ids in the book are below `next`.
    pub open spec fn numbered_below(self, next: OrderId) -> bool {
        forall|id: OrderId| #[trigger] self.mentions(id) ==> id < next
    }
}

/// The empty book is consistent.
pub proof fn law_empty_book_is_consistent(next: OrderId)
    ensures
        OrderBook::empty().consistent(),
        OrderBook::empty().numbered_below(next),
{
}

/// A consistent book stays consistent when an order with a new id arrives.
pub proof fn law_arrival_keeps_consistency(book: OrderBook, order: Order)
    requires
        book.consistent(),
        !book.mentions(order.id),
    ensures
        book.with_order(order).consistent(),
{
    let after = book.with_order(order);
    assert forall|i: int| 0 <= i < after.pending.len() implies !after.takes_bids(
        (#[trigger] after.pending[i]).id,
    ) by {
        if i < book.pending.len() {
            assert(after.pending[i] == book.pending[i]);
        }
    }
    assert forall|i: int, j: int| 0 <= i < j < after.pending.len() implies (
    #[trigger] after.pending[i]).id != (#[trigger] after.pending[j]).id by {
        assert(after.pending[i] == book.pending[i]);
        if j < book.pending.len() {
            assert(after.pending[j] == book.pending[j]);
        }
    }
    assert forall|id: OrderId, i: int| 0 <= i < after.bids_for(id).len() implies (
    #[trigger] after.bids_for(id)[i]).order_id == id by {
        assert(after.bids_for(id) == book.bids_for(id));
    }
}

/// Ids that are handed out in turn are new: the order that gets the next id keeps the book
/// numbered below the one after it.
pub proof fn law_next_id_is_new(book: OrderBook, order: Order, next: OrderId)
    requires
        book.numbered_below(next),
        order.id == next,
        next < u64::MAX,
    ensures
        !book.mentions(order.id),
        book.with_order(order).numbered_below((next + 1) as OrderId),
{
    let after = book.with_order(order);
    assert forall|id: OrderId| #[trigger] after.mentions(id) implies id < next + 1 by {
        if exists|i: int| 0 <= i < after.pending.len() && (#[trigger] after.pending[i]).id == id {
            let i = choose|i: int|
                0 <= i < after.pending.len() && (#[trigger] after.pending[i]).id == id;
            if i < book.pending.len() {
                assert(book.pending[i].id == id);
                assert(book.mentions(id));
            }
        } else {
            assert(book.mentions(id));
        }
    }
}

/// What entering a batch does to the auction: the orders of the batch are in it, and it
/// keeps what it had of the others.
proof fn lemma_entered(auction: Map<OrderId, Order>, batch: Seq<Order>, id: OrderId)
    ensures
        (forall|i: int| 0 <= i < batch.len() ==> (#[trigger] batch[i]).id != id) ==> {
            &&& crate::order_state::entered(auction, batch).contains_key(id)
                == auction.contains_key(id)
            &&& auction.contains_key(id) ==> crate::order_state::entered(auction, batch)[id]
                == auction[id]
        },
        (exists|i: int| 0 <= i < batch.len() && (#[trigger] batch[i]).id == id) ==> {
            &&& crate::order_state::entered(auction, batch).contains_key(id)
            &&& exists|i: int|
                0 <= i < batch.len() && (#[trigger] batch[i]).id == id
                    && crate::order_state::entered(auction, batch)[id] == batch[i]
        },
    decreases batch.len(),
{
    if batch.len() > 0 {
        let rest = batch.drop_last();
        lemma_entered(auction, rest, id);
        assert(forall|i: int| 0 <= i < rest.len() ==> rest[i] == #[trigger] batch[i]);
        let last = batch.len() - 1;
        assert(batch[last] == batch.last());
        if batch.last().id != id && (exists|i: int|
            0 <= i < batch.len() && (#[trigger] batch[i]).id == id) {
            let i = choose|i: int| 0 <= i < batch.len() && (#[trigger] batch[i]).id == id;
            assert(rest[i].id == id);
            let j = choose|j: int|
                0 <= j < rest.len() && (#[trigger] rest[j]).id == id
                    && crate::order_state::entered(auction, rest)[id] == rest[j];
            assert(batch[j] == rest[j]);
        }
    }
}

/// Batching loses no order and keeps their order: what was pending is the batch, followed
/// by what is pending after it. Every order of the batch is in the auction.
pub proof fn law_batching_keeps_every_order(book: OrderBook, max_batch_size: nat)
    ensures
        book.pending == book.batch(max_batch_size) + book.after_batch(max_batch_size).pending,
        book.batch(max_batch_size).len() <= max_batch_size,
        book.batch(max_batch_size).len() < max_batch_size ==> book.after_batch(
            max_batch_size,
        ).pending.len() == 0,
        forall|i: int|
            0 <= i < book.batch(max_batch_size).len() ==> book.after_batch(
                max_batch_size,
            ).auction.contains_key((#[trigger] book.batch(max_batch_size)[i]).id),
{
    let batch = book.batch(max_batch_size);
    assert(book.pending =~= batch + book.after_batch(max_batch_size).pending);
    assert forall|i: int| 0 <= i < batch.len() implies book.after_batch(
        max_batch_size,
    ).auction.contains_key((#[trigger] batch[i]).id) by {
        lemma_entered(book.auction, batch, batch[i].id);
    }
}

/// A consistent book stays consistent when a batch enters the auction, and each order of
/// the batch is then in the auction under its id.
pub proof fn law_batching_keeps_consistency(book: OrderBook, max_batch_size: nat)
    requires
        book.consistent(),
    ensures
        book.after_batch(max_batch_size).consistent(),
        book.after_batch(max_batch_size).adds_no_order_to(book),
        forall|i: int|
            0 <= i < book.batch(max_batch_size).len() ==> book.after_batch(
                max_batch_size,
            ).auction[(#[trigger] book.batch(max_batch_size)[i]).id] == book.batch(
                max_batch_size,
            )[i],
{
    let after = book.after_batch(max_batch_size);
    let batch = book.batch(max_batch_size);
    let size = book.batch_size(max_batch_size);
    assert forall|id: OrderId| #[trigger] after.auction.contains_key(id) implies after.auction[id].id
        == id && !after.commitments.contains_key(id) by {
        lemma_entered(book.auction, batch, id);
        if exists|i: int| 0 <= i < batch.len() && (#[trigger] batch[i]).id == id {
            let i = choose|i: int| 0 <= i < batch.len() && (#[trigger] batch[i]).id == id;
            assert(book.pending[i] == batch[i]);
        } else {
            assert(book.auction.contains_key(id));
        }
    }
    assert forall|id: OrderId| #[trigger] after.bids.contains_key(id) implies after.takes_bids(id)
        && after.bids[id].len() > 0 by {
        lemma_entered(book.auction, batch, id);
        assert(book.takes_bids(id));
    }
    assert forall|id: OrderId, i: int| 0 <= i < after.bids_for(id).len() implies (
    #[trigger] after.bids_for(id)[i]).order_id == id by {
        assert(after.bids_for(id) == book.bids_for(id));
    }
    assert forall|i: int| 0 <= i < after.pending.len() implies !after.takes_bids(
        (#[trigger] after.pending[i]).id,
    ) by {
        let id = after.pending[i].id;
        assert(after.pending[i] == book.pending[i + size]);
        lemma_entered(book.auction, batch, id);
        assert forall|j: int| 0 <= j < batch.len() implies (#[trigger] batch[j]).id != id by {
            assert(batch[j] == book.pending[j]);
        }
        assert(!book.takes_bids(book.pending[i + size].id));
    }
    assert forall|i: int, j: int| 0 <= i < j < after.pending.len() implies (
    #[trigger] after.pending[i]).id != (#[trigger] after.pending[j]).id by {
        assert(after.pending[i] == book.pending[i + size]);
        assert(after.pending[j] == book.pending[j + size]);
    }
    assert forall|i: int| 0 <= i < batch.len() implies after.auction[(#[trigger] batch[i]).id]
        == batch[i] by {
        lemma_entered(book.auction, batch, batch[i].id);
        let j = choose|j: int|
            0 <= j < batch.len() && (#[trigger] batch[j]).id == batch[i].id
                && after.auction[batch[i].id] == batch[j];
        assert(batch[j] == book.pending[j] && batch[i] == book.pending[i]);
    }
    assert forall|id: OrderId| #[trigger] after.mentions(id) implies book.mentions(id) by {
        lemma_entered(book.auction, batch, id);
        if exists|i: int| 0 <= i < after.pending.len() && (#[trigger] after.pending[i]).id == id {
            let i = choose|i: int|
                0 <= i < after.pending.len() && (#[trigger] after.pending[i]).id == id;
            assert(book.pending[i + size].id == id);
        } else if exists|i: int| 0 <= i < batch.len() && (#[trigger] batch[i]).id == id {
            let i = choose|i: int| 0 <= i < batch.len() && (#[trigger] batch[i]).id == id;
            assert(book.pending[i].id == id);
        }
    }
}

/// A consistent book stays consistent when a bid arrives, for whatever order it is.
pub proof fn law_bid_keeps_consistency(book: OrderBook, bid: Bid)
    requires
        book.consistent(),
    ensures
        book.with_bid(bid).consistent(),
        book.with_bid(bid).adds_no_order_to(book),
{
    let after = book.with_bid(bid);
    assert forall|id: OrderId, i: int| 0 <= i < after.bids_for(id).len() implies (
    #[trigger] after.bids_for(id)[i]).order_id == id by {
        if i < book.bids_for(id).len() {
            assert(after.bids_for(id)[i] == book.bids_for(id)[i]);
        }
    }
    assert forall|i: int| 0 <= i < after.pending.len() implies !after.takes_bids(
        (#[trigger] after.pending[i]).id,
    ) by {
        assert(after.pending[i] == book.pending[i]);
    }
}

/// A book that mentions no id which an earlier one did not is numbered below as it was.
pub proof fn law_numbering_is_kept(earlier: OrderBook, book: OrderBook, next: OrderId)
    requires
        earlier.numbered_below(next),
        book.adds_no_order_to(earlier),
    ensures
        book.numbered_below(next),
{
}

/// What one order looks like after auctions were closed.
proof fn lemma_order_after_closings(
    book: OrderBook,
    closed: Seq<ClosedAuction>,
    now: Timestamp,
    id: OrderId,
) -> (i: int)
    requires
        crate::auction::all_closed(closed, book, now),
    ensures
        book.due(id, now) ==> {
            &&& 0 <= i < closed.len()
            &&& closed[i].order_id == id
            &&& crate::auction::rightly_closed(closed[i], book, now)
            &&& book.after_closings(closed).same_order(book.after_closing(closed[i]), id)
        },
        !book.due(id, now) ==> book.after_closings(closed).same_order(book, id),
{
    let ids = crate::auction::closed_ids(closed);
    assert(ids.contains(id) <==> book.due(id, now));
    if ids.contains(id) {
        let i = choose|i: int| 0 <= i < ids.len() && ids[i] == id;
        crate::auction::law_closings_act_one_by_one(book, closed, i);
        i
    } else {
        crate::auction::law_closings_leave_other_orders(book, closed, id);
        0
    }
}

/// A consistent book stays consistent when the auctions that are due are closed.
pub proof fn law_closing_keeps_consistency(
    book: OrderBook,
    closed: Seq<ClosedAuction>,
    now: Timestamp,
)
    requires
        book.consistent(),
        crate::auction::all_closed(closed, book, now),
    ensures
        book.after_closings(closed).consistent(),
        book.after_closings(closed).adds_no_order_to(book),
{
    let after = book.after_closings(closed);
    crate::auction::law_closings_leave_pending_orders(book, closed);
    assert forall|id: OrderId| #[trigger] after.auction.contains_key(id) implies after.auction[id].id
        == id && !after.commitments.contains_key(id) by {
        let i = lemma_order_after_closings(book, closed, now, id);
        assert(book.auction.contains_key(id));
    }
    assert forall|id: OrderId| #[trigger]
        after.commitments.contains_key(id) implies after.commitments[id].order_id == id by {
        let i = lemma_order_after_closings(book, closed, now, id);
        if !book.due(id, now) {
            assert(book.commitments.contains_key(id));
        }
    }
    assert forall|id: OrderId| #[trigger] after.bids.contains_key(id) implies after.takes_bids(id)
        && after.bids[id].len() > 0 by {
        let i = lemma_order_after_closings(book, closed, now, id);
        assert(book.bids.contains_key(id));
    }
    assert forall|id: OrderId, i: int| 0 <= i < after.bids_for(id).len() implies (
    #[trigger] after.bids_for(id)[i]).order_id == id by {
        let k = lemma_order_after_closings(book, closed, now, id);
        assert(after.bids_for(id) == book.bids_for(id));
    }
    assert forall|id: OrderId| #[trigger] after.takes_bids(id) implies book.takes_bids(id) by {
        let i = lemma_order_after_closings(book, closed, now, id);
    }
    assert forall|i: int| 0 <= i < after.pending.len() implies !after.takes_bids(
        (#[trigger] after.pending[i]).id,
    ) by {
        assert(!book.takes_bids(book.pending[i].id));
    }
    assert forall|id: OrderId| #[trigger] after.mentions(id) implies book.mentions(id) by {
        let i = lemma_order_after_closings(book, closed, now, id);
        if exists|j: int| 0 <= j < after.pending.len() && (#[trigger] after.pending[j]).id == id {
            let j = choose|j: int|
                0 <= j < after.pending.len() && (#[trigger] after.pending[j]).id == id;
            assert(book.pending[j].id == id);
        }
    }
}

/// What one order looks like after commitments were settled.
proof fn lemma_order_after_settlements(
    book: OrderBook,
    claims: Map<(OrderId, Seq<char>), Timestamp>,
    settled: Seq<Settlement>,
    now: Timestamp,
    id: OrderId,
) -> (i: int)
    requires
        crate::settlement::all_settled(settled, book, claims, now),
    ensures
        book.settles(id, now) ==> {
            &&& 0 <= i < settled.len()
            &&& settled[i].order_id == id
            &&& crate::settlement::rightly_settled(settled[i], book, claims, now)
            &&& book.after_settlements(settled).same_order(book.after_settlement(settled[i]), id)
        },
        !book.settles(id, now) ==> book.after_settlements(settled).same_order(book, id),
{
    let ids = crate::settlement::settled_ids(settled);
    assert(ids.contains(id) <==> book.settles(id, now));
    if ids.contains(id) {
        let i = choose|i: int| 0 <= i < ids.len() && ids[i] == id;
        crate::settlement::law_settlements_act_one_by_one(book, settled, i);
        i
    } else {
        crate::settlement::law_settlements_leave_other_orders(book, settled, id);
        0
    }
}

/// A consistent book stays consistent when the commitments that are overdue are settled.
pub proof fn law_settlement_keeps_consistency(
    book: OrderBook,
    claims: Map<(OrderId, Seq<char>), Timestamp>,
    settled: Seq<Settlement>,
    now: Timestamp,
)
    requires
        book.consistent(),
        crate::settlement::all_settled(settled, book, claims, now),
    ensures
        book.after_settlements(settled).consistent(),
        book.after_settlements(settled).adds_no_order_to(book),
{
    let after = book.after_settlements(settled);
    crate::settlement::law_settlements_leave_auctions(book, settled);
    assert forall|id: OrderId| #[trigger] after.auction.contains_key(id) implies after.auction[id].id
        == id && !after.commitments.contains_key(id) by {
        let i = lemma_order_after_settlements(book, claims, settled, now, id);
        assert(book.auction.contains_key(id));
    }
    assert forall|id: OrderId| #[trigger]
        after.commitments.contains_key(id) implies after.commitments[id].order_id == id by {
        let i = lemma_order_after_settlements(book, claims, settled, now, id);
        assert(book.commitments.contains_key(id));
    }
    assert forall|id: OrderId| #[trigger] after.bids.contains_key(id) implies after.takes_bids(id)
        && after.bids[id].len() > 0 by {
        let i = lemma_order_after_settlements(book, claims, settled, now, id);
        assert(book.bids.contains_key(id));
    }
    assert forall|id: OrderId, i: int| 0 <= i < after.bids_for(id).len() implies (
    #[trigger] after.bids_for(id)[i]).order_id == id by {
        let k = lemma_order_after_settlements(book, claims, settled, now, id);
        assert(after.bids_for(id) == book.bids_for(id));
    }
    assert forall|id: OrderId| #[trigger] after.takes_bids(id) implies book.takes_bids(id) by {
        let i = lemma_order_after_settlements(book, claims, settled, now, id);
    }
    assert forall|i: int| 0 <= i < after.pending.len() implies !after.takes_bids(
        (#[trigger] after.pending[i]).id,
    ) by {
        assert(!book.takes_bids(book.pending[i].id));
    }
    assert forall|id: OrderId| #[trigger] after.mentions(id) implies book.mentions(id) by {
        let i = lemma_order_after_settlements(book, claims, settled, now, id);
        if exists|j: int| 0 <= j < after.pending.len() && (#[trigger] after.pending[j]).id == id {
            let j = choose|j: int|
                0 <= j < after.pending.len() && (#[trigger] after.pending[j]).id == id;
            assert(book.pending[j].id == id);
        }
    }
}

/// A consistent book stays consistent through a whole tick: an order with the next id may
/// arrive, a batch enters the auction, what is due is closed and what is overdue is settled.
/// After it the ids are still below the next one, and no commitment is overdue.
pub proof fn law_tick_keeps_consistency(
    book: OrderBook,
    next: OrderId,
    arrived: Option<Order>,
    closed: Seq<ClosedAuction>,
    claims: Map<(OrderId, Seq<char>), Timestamp>,
    settled: Seq<Settlement>,
    now: Timestamp,
)
    requires
        book.consistent(),
        book.numbered_below(next),
        arrived matches Some(order) ==> order.id == next && next < u64::MAX,
        crate::auction::all_closed(closed, opened(book, arrived), now),
        crate::settlement::all_settled(
            settled,
            opened(book, arrived).after_closings(closed),
            claims,
            now,
        ),
    ensures
        ({
            let after = opened(book, arrived).after_closings(closed).after_settlements(settled);
            &&& after.consistent()
            &&& after.numbered_below(
                if arrived is Some {
                    (next + 1) as OrderId
                } else {
                    next
                },
            )
            &&& forall|id: OrderId| !#[trigger] after.settles(id, now)
        }),
{
    let (arrival, bound) = match arrived {
        Some(order) => (book.with_order(order), (next + 1) as OrderId),
        None => (book, next),
    };
    if let Some(order) = arrived {
        law_next_id_is_new(book, order, next);
        law_arrival_keeps_consistency(book, order);
    }
    let batched = opened(book, arrived);
    law_batching_keeps_consistency(arrival, ORDER_BATCH_SIZE as nat);
    law_numbering_is_kept(arrival, batched, bound);
    let decided = batched.after_closings(closed);
    law_closing_keeps_consistency(batched, closed, now);
    law_numbering_is_kept(batched, decided, bound);
    let after = decided.after_settlements(settled);
    law_settlement_keeps_consistency(decided, claims, settled, now);
    law_numbering_is_kept(decided, after, bound);
    assert forall|id: OrderId| !#[trigger] after.settles(id, now) by {
        law_no_commitment_stays_overdue(decided, claims, settled, now, id);
    }
}

/// The book after the first phase of a tick.
pub open spec fn opened(book: OrderBook, arrived: Option<Order>) -> OrderBook {
    match arrived {
        Some(order) => book.with_order(order).after_batch(ORDER_BATCH_SIZE as nat),
        None => book.after_batch(ORDER_BATCH_SIZE as nat),
    }
}

/// Once the auctions that are due have been closed, an order whose auction is due still is
/// one whose best bid had lapsed.
pub proof fn law_no_due_auction_stays_open(
    book: OrderBook,
    closed: Seq<ClosedAuction>,
    now: Timestamp,
    id: OrderId,
)
    requires
        crate::auction::all_closed(closed, book, now),
        book.after_closings(closed).due(id, now),
    ensures
        exists|i: int|
            0 <= i < closed.len() && (#[trigger] closed[i]).order_id == id
                && closed[i].outcome is Lapsed,
{
    let i = lemma_order_after_closings(book, closed, now, id);
    assert(book.due(id, now));
    assert(closed[i].outcome is Lapsed);
}

/// A bid that was selected at readings of the clock that do not lie before the round never
/// lapses.
pub proof fn law_no_lapse_while_clock_runs_forward(
    bids: Seq<Bid>,
    readings: Seq<Timestamp>,
    winner: Option<Bid>,
    order_id: OrderId,
    now: Timestamp,
)
    requires
        bids.len() == readings.len(),
        crate::selection::is_best(bids, readings, winner),
        forall|i: int| 0 <= i < readings.len() ==> #[trigger] readings[i] >= now,
    ensures
        !(crate::auction::outcome_of(order_id, winner, now) is Lapsed),
{
    if let Some(bid) = winner {
        let i = choose|i: int|
            #[trigger] crate::selection::best_at(bids, readings, i) && bid == bids[i];
        assert(readings[i] >= now);
    }
}

/// A commitment made at the time `now` to a bid that is valid then has its deadline between
/// now and the end of the bid's validity, and no further ahead than the commitment duration.
/// It is not overdue.
pub proof fn law_deadline_is_ahead(order_id: OrderId, bid: Bid, now: Timestamp)
    requires
        bid.valid_at(now),
    ensures
        ({
            let commitment = crate::auction::commitment_to(order_id, bid, now);
            &&& now <= commitment.deadline <= bid.valid_till
            &&& commitment.deadline <= now + COMMITMENT_DURATION_SECS
            &&& !commitment.overdue(now)
        }),
{
}

/// Once the commitments that are overdue have been settled, none is overdue: each order was
/// filled, reassigned or given up.
pub proof fn law_no_commitment_stays_overdue(
    book: OrderBook,
    claims: Map<(OrderId, Seq<char>), Timestamp>,
    settled: Seq<Settlement>,
    now: Timestamp,
    id: OrderId,
)
    requires
        crate::settlement::all_settled(settled, book, claims, now),
    ensures
        !book.after_settlements(settled).settles(id, now),
{
    let i = lemma_order_after_settlements(book, claims, settled, now, id);
}

/// An order is never reassigned to the solver that has just failed it.
pub proof fn law_failed_solver_is_replaced(
    settled: Settlement,
    book: OrderBook,
    claims: Map<(OrderId, Seq<char>), Timestamp>,
    now: Timestamp,
)
    requires
        crate::settlement::rightly_settled(settled, book, claims, now),
        settled.outcome is Reassigned,
    ensures
        settled.outcome->Reassigned_0.solver_id@ != settled.solver_id@,
{
    let commitment = book.commitments[settled.order_id];
    let winner = choose|winner: Option<Bid>|
        book.may_replace_with(settled.order_id, commitment.solver_id@, winner) && settled.outcome
            == #[trigger] crate::settlement::reassignment(settled.order_id, winner, now);
    let bids = book.bids_for(settled.order_id);
    let readings = choose|readings: Seq<Timestamp>|
        readings.len() == bids.len() && crate::clock::clock_showed(readings)
            && #[trigger] crate::selection::is_next_best(
            bids,
            readings,
            commitment.solver_id@,
            winner,
        );
    assert(crate::selection::is_next_best(bids, readings, commitment.solver_id@, winner));
}

/// A solver whose claim was recorded by the deadline has fulfilled its commitment, whatever
/// else was claimed.
pub proof fn law_timely_claim_fulfils(
    settled: Settlement,
    book: OrderBook,
    claims: Map<(OrderId, Seq<char>), Timestamp>,
    recorded: Timestamp,
    now: Timestamp,
)
    requires
        recorded <= book.commitments[settled.order_id].deadline,
        crate::settlement::rightly_settled(
            settled,
            book,
            claims.insert(
                (settled.order_id, book.commitments[settled.order_id].solver_id@),
                recorded,
            ),
            now,
        ),
    ensures
        settled.outcome is Fulfilled,
{
}

/// A solver with no claim by the deadline has not fulfilled its commitment, though another
/// solver may have claimed the order.
pub proof fn law_without_timely_claim_not_fulfilled(
    settled: Settlement,
    book: OrderBook,
    claims: Map<(OrderId, Seq<char>), Timestamp>,
    now: Timestamp,
)
    requires
        crate::settlement::rightly_settled(settled, book, claims, now),
        ({
            let key = (settled.order_id, book.commitments[settled.order_id].solver_id@);
            claims.contains_key(key) ==> claims[key]
                > book.commitments[settled.order_id].deadline
        }),
    ensures
        !(settled.outcome is Fulfilled),
{
    let winner = choose|winner: Option<Bid>|
        book.may_replace_with(
            settled.order_id,
            book.commitments[settled.order_id].solver_id@,
            winner,
        ) && settled.outcome == #[trigger] crate::settlement::reassignment(
            settled.order_id,
            winner,
            now,
        );
}

/// When its auction is closed, an order of a consistent book moves on: it is committed and
/// keeps its bids, or it stays in the auction because its best bid had lapsed, or nothing
/// of it is left.
pub proof fn law_closed_order_moves_on(
    book: OrderBook,
    closed: Seq<ClosedAuction>,
    now: Timestamp,
    i: int,
)
    requires
        book.consistent(),
        crate::auction::all_closed(closed, book, now),
        0 <= i < closed.len(),
    ensures
        ({
            let after = book.after_closings(closed);
            let id = closed[i].order_id;
            match closed[i].outcome {
                AuctionOutcome::Committed(commitment) => {
                    &&& !after.auction.contains_key(id)
                    &&& after.commitments.contains_key(id)
                    &&& after.commitments[id] == commitment
                    &&& after.bids_for(id) == book.bids_for(id)
                },
                AuctionOutcome::Lapsed(_) => after.same_order(book, id),
                AuctionOutcome::Expired => !after.mentions(id),
            }
        }),
{
    let after = book.after_closings(closed);
    let id = closed[i].order_id;
    assert(crate::auction::closed_ids(closed)[i] == id);
    assert(crate::auction::closed_ids(closed).contains(id));
    assert(book.due(id, now));
    crate::auction::law_closings_act_one_by_one(book, closed, i);
    crate::auction::law_closings_leave_pending_orders(book, closed);
    if closed[i].outcome is Expired {
        assert forall|j: int| 0 <= j < after.pending.len() implies (
        #[trigger] after.pending[j]).id != id by {
            assert(!book.takes_bids(book.pending[j].id));
        }
    }
}

/// When its commitment is settled, an order of a consistent book moves on: it is committed
/// to another solver and keeps its bids, or nothing of it is left.
pub proof fn law_settled_order_moves_on(
    book: OrderBook,
    claims: Map<(OrderId, Seq<char>), Timestamp>,
    settled: Seq<Settlement>,
    now: Timestamp,
    i: int,
)
    requires
        book.consistent(),
        crate::settlement::all_settled(settled, book, claims, now),
        0 <= i < settled.len(),
    ensures
        ({
            let after = book.after_settlements(settled);
            let id = settled[i].order_id;
            match settled[i].outcome {
                SettlementOutcome::Reassigned(commitment) => {
                    &&& after.commitments.contains_key(id)
                    &&& after.commitments[id] == commitment
                    &&& after.bids_for(id) == book.bids_for(id)
                    &&& commitment.solver_id@ != book.commitments[id].solver_id@
                },
                _ => !after.mentions(id),
            }
        }),
{
    let after = book.after_settlements(settled);
    let id = settled[i].order_id;
    assert(crate::settlement::settled_ids(settled)[i] == id);
    assert(crate::settlement::settled_ids(settled).contains(id));
    assert(book.settles(id, now));
    assert(book.commitments.contains_key(id));
    crate::settlement::law_settlements_act_one_by_one(book, settled, i);
    crate::settlement::law_settlements_leave_auctions(book, settled);
    assert(crate::settlement::rightly_settled(settled[i], book, claims, now));
    if settled[i].outcome is Reassigned {
        law_failed_solver_is_replaced(settled[i], book, claims, now);
    } else {
        assert forall|j: int| 0 <= j < after.pending.len() implies (
        #[trigger] after.pending[j]).id != id by {
            assert(!book.takes_bids(book.pending[j].id));
        }
        assert(!book.auction.contains_key(id));
    }
}

/// A claim answers for the order and solver that it names: at any deadline from its
/// recording on the order counts as fulfilled by the solver, and at none before. Other
/// claims count as they did.
pub proof fn law_recorded_claim_counts(
    claims: Map<(OrderId, Seq<char>), Timestamp>,
    order_id: OrderId,
    solver_id: Seq<char>,
    recorded: Timestamp,
    other_order: OrderId,
    other_solver: Seq<char>,
    deadline: Timestamp,
)
    ensures
        ({
            let after = claims.insert((order_id, solver_id), recorded);
            &&& crate::settlement::fulfilled_by(after, order_id, solver_id, deadline) <==> recorded
                <= deadline
            &&& (other_order, other_solver) != (order_id, solver_id)
                ==> crate::settlement::fulfilled_by(after, other_order, other_solver, deadline)
                == crate::settlement::fulfilled_by(claims, other_order, other_solver, deadline)
        }),
{
}

/// A claim that was cleared counts no longer, and other claims count as they did.
pub proof fn law_cleared_claim_is_gone(
    claims: Map<(OrderId, Seq<char>), Timestamp>,
    order_id: OrderId,
    solver_id: Seq<char>,
    other_order: OrderId,
    other_solver: Seq<char>,
    deadline: Timestamp,
)
    ensures
        ({
            let after = claims.remove((order_id, solver_id));
            &&& !crate::settlement::fulfilled_by(after, order_id, solver_id, deadline)
            &&& (other_order, other_solver) != (order_id, solver_id)
                ==> crate::settlement::fulfilled_by(after, other_order, other_solver, deadline)
                == crate::settlement::fulfilled_by(claims, other_order, other_solver, deadline)
        }),
{
}

/// A settlement uses its solver's claim up: it cannot count again for a later commitment
/// of the order to the same solver.
pub proof fn law_claim_is_used_once(
    claims: Map<(OrderId, Seq<char>), Timestamp>,
    settled: Seq<Settlement>,
    i: int,
    deadline: Timestamp,
)
    requires
        0 <= i < settled.len(),
    ensures
        !crate::settlement::fulfilled_by(
            crate::settlement::claims_left(claims, settled),
            settled[i].order_id,
            settled[i].solver_id@,
            deadline,
        ),
{
    let keys = settled.map_values(|s: Settlement| (s.order_id, s.solver_id@));
    assert(keys[i] == (settled[i].order_id, settled[i].solver_id@));
    assert(keys.to_set().contains(keys[i]));
}

/// The bid that is selected promises at least as much as every bid that was valid at its
/// reading of the clock; of those that promise as much, none is valid for a shorter time.
pub proof fn law_best_bid_pays_most(
    bids: Seq<Bid>,
    readings: Seq<Timestamp>,
    winner: Bid,
    j: int,
)
    requires
        crate::selection::is_best(bids, readings, Some(winner)),
        0 <= j < bids.len(),
        bids[j].valid_at(readings[j]),
    ensures
        winner.promised_output() >= bids[j].promised_output(),
        winner.promised_output() == bids[j].promised_output() ==> winner.valid_till
            <= bids[j].valid_till,
{
}

/// The bid that replaces a failed solver promises at least as much as every other bid that
/// might.
pub proof fn law_next_best_bid_pays_most(
    bids: Seq<Bid>,
    readings: Seq<Timestamp>,
    failed: Seq<char>,
    winner: Bid,
    j: int,
)
    requires
        crate::selection::is_next_best(bids, readings, failed, Some(winner)),
        0 <= j < bids.len(),
        crate::selection::may_replace(bids, readings, failed, j),
    ensures
        winner.solver_id@ != failed,
        winner.promised_output() >= bids[j].promised_output(),
{
}

/// The readings of the clock decide the selection: there is one best bid at most, and it is
/// found exactly where a bid is valid.
pub proof fn law_selection_is_determined(
    bids: Seq<Bid>,
    readings: Seq<Timestamp>,
    one: Option<Bid>,
    other: Option<Bid>,
)
    requires
        crate::selection::is_best(bids, readings, one),
        crate::selection::is_best(bids, readings, other),
    ensures
        one == other,
        one is Some <==> exists|j: int|
            0 <= j < bids.len() && (#[trigger] bids[j]).valid_at(readings[j]),
{
}

/// The same of the selection of a replacement.
pub proof fn law_replacement_is_determined(
    bids: Seq<Bid>,
    readings: Seq<Timestamp>,
    failed: Seq<char>,
    one: Option<Bid>,
    other: Option<Bid>,
)
    requires
        crate::selection::is_next_best(bids, readings, failed, one),
        crate::selection::is_next_best(bids, readings, failed, other),
    ensures
        one == other,
        one is Some <==> exists|j: int|
            0 <= j < bids.len() && #[trigger] crate::selection::may_replace(
                bids,
                readings,
                failed,
                j,
            ),
{
}

} // verus!
