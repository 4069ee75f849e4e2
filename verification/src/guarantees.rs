//! What can be relied on, said of the orders, bids, commitments, claims and times themselves.
use crate::auction::{AuctionOutcome, ClosedAuction};
use crate::order_state::{OrderBook, OrderStateManager};
use crate::settlement::{Settlement, SettlementOutcome};
use crate::types::{
    Bid, ChainEvent, Order, OrderId, SequencerToSolverMessage, Timestamp, ORDER_BATCH_SIZE,
};
use vstd::prelude::*;

verus! {

/// The book shows what the manager's fields hold.
pub proof fn law_book_shows_the_fields(manager: OrderStateManager, id: OrderId)
    ensures
        manager@.pending == manager.pending_orders@,
        manager@.auction == manager.active_orders_in_auction@,
        manager@.commitments == manager.active_commitments@,
        manager@.bids.contains_key(id) == manager.received_bids@.contains_key(id),
        manager.received_bids@.contains_key(id) ==> manager@.bids[id]
            == manager.received_bids@[id]@,
{
}

/// An order that arrives waits behind all others, and nothing else changes.
pub proof fn law_arriving_order_waits_last(book: OrderBook, order: Order)
    ensures
        ({
            let after = book.with_order(order);
            &&& after.pending.len() == book.pending.len() + 1
            &&& after.pending.last() == order
            &&& forall|i: int|
                0 <= i < book.pending.len() ==> #[trigger] after.pending[i] == book.pending[i]
            &&& after.auction == book.auction
            &&& after.bids == book.bids
            &&& after.commitments == book.commitments
        }),
{
}

/// Of several orders with one id that enter the auction, the last one stays.
proof fn lemma_last_entered(auction: Map<OrderId, Order>, batch: Seq<Order>, i: int)
    requires
        0 <= i < batch.len(),
        forall|k: int| i < k < batch.len() ==> (#[trigger] batch[k]).id != batch[i].id,
    ensures
        crate::order_state::entered(auction, batch).contains_key(batch[i].id),
        crate::order_state::entered(auction, batch)[batch[i].id] == batch[i],
    decreases batch.len(),
{
    if i < batch.len() - 1 {
        let rest = batch.drop_last();
        assert forall|k: int| i < k < rest.len() implies (#[trigger] rest[k]).id != rest[i].id by {
            assert(batch[k] == rest[k]);
        }
        lemma_last_entered(auction, rest, i);
        assert(batch[batch.len() - 1].id != batch[i].id);
    }
}

/// Orders that do not enter the auction leave its entry as it was.
proof fn lemma_not_entered(auction: Map<OrderId, Order>, batch: Seq<Order>, id: OrderId)
    requires
        forall|k: int| 0 <= k < batch.len() ==> (#[trigger] batch[k]).id != id,
    ensures
        crate::order_state::entered(auction, batch).contains_key(id) == auction.contains_key(id),
        auction.contains_key(id) ==> crate::order_state::entered(auction, batch)[id] == auction[id],
    decreases batch.len(),
{
    if batch.len() > 0 {
        let rest = batch.drop_last();
        assert forall|k: int| 0 <= k < rest.len() implies (#[trigger] rest[k]).id != id by {
            assert(batch[k] == rest[k]);
        }
        lemma_not_entered(auction, rest, id);
        assert(batch[batch.len() - 1].id != id);
    }
}

/// A batch is made of the orders that waited longest, as many as it may take, in the order
/// of their arrival; the others wait on. Bids and commitments stay.
pub proof fn law_batch_takes_the_oldest(book: OrderBook, max_batch_size: nat)
    ensures
        ({
            let after = book.after_batch(max_batch_size);
            let batch = book.batch(max_batch_size);
            &&& batch.len() <= max_batch_size
            &&& batch.len() == max_batch_size || after.pending.len() == 0
            &&& batch.len() + after.pending.len() == book.pending.len()
            &&& forall|i: int|
                0 <= i < batch.len() ==> #[trigger] batch[i] == book.pending[i]
            &&& forall|i: int|
                0 <= i < after.pending.len() ==> #[trigger] after.pending[i] == book.pending[
                batch.len() + i]
            &&& after.bids == book.bids
            &&& after.commitments == book.commitments
        }),
{
}

/// An order of a batch is in the auction under its id, unless a later one of the batch has
/// the same id; what the auction holds under other ids stays.
pub proof fn law_batch_enters_the_auction(
    book: OrderBook,
    max_batch_size: nat,
    i: int,
    id: OrderId,
)
    ensures
        ({
            let after = book.after_batch(max_batch_size);
            let batch = book.batch(max_batch_size);
            &&& 0 <= i < batch.len() && (forall|k: int|
                i < k < batch.len() ==> (#[trigger] batch[k]).id != batch[i].id) ==> {
                &&& after.auction.contains_key(batch[i].id)
                &&& after.auction[batch[i].id] == batch[i]
            }
            &&& (forall|k: int| 0 <= k < batch.len() ==> (#[trigger] batch[k]).id != id) ==> {
                &&& after.auction.contains_key(id) == book.auction.contains_key(id)
                &&& book.auction.contains_key(id) ==> after.auction[id] == book.auction[id]
            }
        }),
{
    let batch = book.batch(max_batch_size);
    if 0 <= i < batch.len() && (forall|k: int|
        i < k < batch.len() ==> (#[trigger] batch[k]).id != batch[i].id) {
        lemma_last_entered(book.auction, batch, i);
    }
    if forall|k: int| 0 <= k < batch.len() ==> (#[trigger] batch[k]).id != id {
        lemma_not_entered(book.auction, batch, id);
    }
}

/// A round takes five waiting orders into the auction, or all where there are fewer.
pub proof fn law_batch_of_a_round(book: OrderBook)
    ensures
        book.batch(ORDER_BATCH_SIZE as nat).len() == 5 || book.batch(ORDER_BATCH_SIZE as nat).len()
            == book.pending.len() < 5,
{
}

/// A bid for an order that is in the auction or committed is kept, behind the bids that the
/// order has; a bid for any other order is dropped. Nothing else changes.
pub proof fn law_bid_is_kept_for_a_known_order(book: OrderBook, bid: Bid, id: OrderId)
    ensures
        ({
            let after = book.with_bid(bid);
            let known = book.auction.contains_key(bid.order_id) || book.commitments.contains_key(
                bid.order_id,
            );
            &&& book.takes_bids(bid.order_id) == known
            &&& after.pending == book.pending
            &&& after.auction == book.auction
            &&& after.commitments == book.commitments
            &&& known ==> {
                &&& after.bids.contains_key(bid.order_id)
                &&& after.bids[bid.order_id].len() > 0
                &&& after.bids[bid.order_id].last() == bid
                &&& book.bids.contains_key(bid.order_id) ==> after.bids[bid.order_id].drop_last()
                    == book.bids[bid.order_id]
                &&& !book.bids.contains_key(bid.order_id) ==> after.bids[bid.order_id].len() == 1
            }
            &&& !known || id != bid.order_id ==> {
                &&& after.bids.contains_key(id) == book.bids.contains_key(id)
                &&& book.bids.contains_key(id) ==> after.bids[id] == book.bids[id]
            }
        }),
{
    if book.bids.contains_key(bid.order_id) {
        assert(book.bids[bid.order_id].push(bid).drop_last() =~= book.bids[bid.order_id]);
    }
}

/// Among bids of which `bids[j]` is judged at the time `readings[j]`, one is selected exactly
/// where one is valid at its reading. It is valid itself and promises the most of all that
/// are; among equals its validity ends first, and then it came last.
pub proof fn law_highest_valid_bid_wins(
    bids: Seq<Bid>,
    readings: Seq<Timestamp>,
    winner: Option<Bid>,
)
    requires
        bids.len() == readings.len(),
        crate::selection::is_best(bids, readings, winner),
    ensures
        winner is Some <==> exists|j: int|
            0 <= j < bids.len() && (#[trigger] bids[j]).valid_till >= readings[j],
        winner matches Some(bid) ==> exists|i: int|
            0 <= i < bids.len() && #[trigger] bids[i] == bid && bid.valid_till >= readings[i] && (
            forall|j: int|
                0 <= j < bids.len() && (#[trigger] bids[j]).valid_till >= readings[j] ==> {
                    let output = bid.conversion_rate.output(bid.max_input);
                    let offered = bids[j].conversion_rate.output(bids[j].max_input);
                    ||| output > offered
                    ||| output == offered && bid.valid_till < bids[j].valid_till
                    ||| output == offered && bid.valid_till == bids[j].valid_till && j <= i
                }),
{
    if let Some(bid) = winner {
        let i = choose|i: int|
            #[trigger] crate::selection::best_at(bids, readings, i) && bid == bids[i];
        assert(bids[i].valid_till >= readings[i]);
        assert forall|j: int|
            0 <= j < bids.len() && (#[trigger] bids[j]).valid_till >= readings[j] implies {
            let output = bid.conversion_rate.output(bid.max_input);
            let offered = bids[j].conversion_rate.output(bids[j].max_input);
            ||| output > offered
            ||| output == offered && bid.valid_till < bids[j].valid_till
            ||| output == offered && bid.valid_till == bids[j].valid_till && j <= i
        } by {
            assert(bids[j].valid_at(readings[j]));
        }
    } else {
        assert forall|j: int| 0 <= j < bids.len() implies (#[trigger] bids[j]).valid_till
            < readings[j] by {
            assert(!bids[j].valid_at(readings[j]));
        }
    }
}

/// Among the bids of other solvers than the one that failed, a replacement is selected
/// exactly where one is valid at its reading. It is valid itself and promises the most of
/// all that are; among equals it came last.
pub proof fn law_highest_other_bid_replaces(
    bids: Seq<Bid>,
    readings: Seq<Timestamp>,
    failed: Seq<char>,
    winner: Option<Bid>,
)
    requires
        bids.len() == readings.len(),
        crate::selection::is_next_best(bids, readings, failed, winner),
    ensures
        winner is Some <==> exists|j: int|
            0 <= j < bids.len() && (#[trigger] bids[j]).solver_id@ != failed && bids[j].valid_till
                >= readings[j],
        winner matches Some(bid) ==> exists|i: int|
            0 <= i < bids.len() && #[trigger] bids[i] == bid && bid.solver_id@ != failed
                && bid.valid_till >= readings[i] && (forall|j: int|
                0 <= j < bids.len() && (#[trigger] bids[j]).solver_id@ != failed
                    && bids[j].valid_till >= readings[j] ==> {
                    let output = bid.conversion_rate.output(bid.max_input);
                    let offered = bids[j].conversion_rate.output(bids[j].max_input);
                    output > offered || output == offered && j <= i
                }),
{
    if let Some(bid) = winner {
        let i = choose|i: int|
            #[trigger] crate::selection::next_best_at(bids, readings, failed, i) && bid == bids[i];
        assert(crate::selection::may_replace(bids, readings, failed, i));
        assert(bids[i].solver_id@ != failed && bids[i].valid_till >= readings[i]);
        assert forall|j: int|
            0 <= j < bids.len() && (#[trigger] bids[j]).solver_id@ != failed && bids[j].valid_till
                >= readings[j] implies {
            let output = bid.conversion_rate.output(bid.max_input);
            let offered = bids[j].conversion_rate.output(bids[j].max_input);
            output > offered || output == offered && j <= i
        } by {
            assert(crate::selection::may_replace(bids, readings, failed, j));
        }
    } else {
        assert forall|j: int| 0 <= j < bids.len() implies (#[trigger] bids[j]).solver_id@ == failed
            || bids[j].valid_till < readings[j] by {
            assert(!crate::selection::may_replace(bids, readings, failed, j));
        }
    }
}

/// One more bid never lowers what the order gets: the selection after it promises at least
/// as much, and there is one if there was one before.
pub proof fn law_more_bids_never_pay_less(
    bids: Seq<Bid>,
    readings: Seq<Timestamp>,
    winner: Option<Bid>,
    bid: Bid,
    reading: Timestamp,
    next_winner: Option<Bid>,
)
    requires
        bids.len() == readings.len(),
        crate::selection::is_best(bids, readings, winner),
        crate::selection::is_best(bids.push(bid), readings.push(reading), next_winner),
    ensures
        winner matches Some(before) ==> next_winner is Some && {
            let after = next_winner->0;
            after.conversion_rate.output(after.max_input) >= before.conversion_rate.output(
                before.max_input,
            )
        },
        bid.valid_till >= reading ==> next_winner is Some && {
            let after = next_winner->0;
            after.conversion_rate.output(after.max_input) >= bid.conversion_rate.output(
                bid.max_input,
            )
        },
        bid.valid_till < reading ==> next_winner == winner,
{
    let more = bids.push(bid);
    let times = readings.push(reading);
    law_highest_valid_bid_wins(bids, readings, winner);
    law_highest_valid_bid_wins(more, times, next_winner);
    if let Some(before) = winner {
        let i = choose|i: int|
            #[trigger] crate::selection::best_at(bids, readings, i) && before == bids[i];
        assert(more[i] == before && times[i] == readings[i]);
    }
    assert(more[bids.len() as int] == bid && times[bids.len() as int] == reading);
    if bid.valid_till < reading {
        assert(crate::selection::is_best(bids, readings, next_winner)) by {
            if let Some(after) = next_winner {
                let i = choose|i: int|
                    #[trigger] crate::selection::best_at(more, times, i) && after == more[i];
                assert(i < bids.len());
                assert forall|j: int|
                    0 <= j < bids.len() && (#[trigger] bids[j]).valid_at(readings[j]) implies {
                    &&& !bids[j].beats(bids[i])
                    &&& j > i ==> bids[i].beats(bids[j])
                } by {
                    assert(more[j] == bids[j] && times[j] == readings[j]);
                    assert(more[j].valid_at(times[j]));
                }
                assert(crate::selection::best_at(bids, readings, i));
            } else {
                assert forall|j: int| 0 <= j < bids.len() implies !(
                #[trigger] bids[j]).valid_at(readings[j]) by {
                    assert(more[j] == bids[j] && times[j] == readings[j]);
                }
            }
        }
        crate::laws::law_selection_is_determined(bids, readings, winner, next_winner);
    }
}

/// The selection for an order is one among the bids kept for it, each judged at a time that
/// the clock shows; an order without bids gets none.
pub proof fn law_selection_is_among_the_orders_bids(
    book: OrderBook,
    id: OrderId,
    winner: Option<Bid>,
)
    requires
        book.may_select(id, winner),
    ensures
        !book.bids.contains_key(id) ==> winner is None,
        book.bids.contains_key(id) ==> exists|readings: Seq<Timestamp>|
            {
                &&& readings.len() == book.bids[id].len()
                &&& forall|i: int|
                    0 <= i < readings.len() ==> crate::clock::clock_shows(#[trigger] readings[i])
                &&& #[trigger] crate::selection::is_best(book.bids[id], readings, winner)
            },
{
    let bids = book.bids_for(id);
    let readings = choose|readings: Seq<Timestamp>|
        readings.len() == bids.len() && crate::clock::clock_showed(readings)
            && #[trigger] crate::selection::is_best(bids, readings, winner);
    assert(crate::selection::is_best(bids, readings, winner));
    law_highest_valid_bid_wins(bids, readings, winner);
    assert forall|i: int| 0 <= i < readings.len() implies crate::clock::clock_shows(
        #[trigger] readings[i],
    ) by {}
}

/// The same of the selection of a replacement.
pub proof fn law_replacement_is_among_the_orders_bids(
    book: OrderBook,
    id: OrderId,
    failed: Seq<char>,
    winner: Option<Bid>,
)
    requires
        book.may_replace_with(id, failed, winner),
    ensures
        !book.bids.contains_key(id) ==> winner is None,
        book.bids.contains_key(id) ==> exists|readings: Seq<Timestamp>|
            {
                &&& readings.len() == book.bids[id].len()
                &&& forall|i: int|
                    0 <= i < readings.len() ==> crate::clock::clock_shows(#[trigger] readings[i])
                &&& #[trigger] crate::selection::is_next_best(
                    book.bids[id],
                    readings,
                    failed,
                    winner,
                )
            },
{
    let bids = book.bids_for(id);
    let readings = choose|readings: Seq<Timestamp>|
        readings.len() == bids.len() && crate::clock::clock_showed(readings)
            && #[trigger] crate::selection::is_next_best(bids, readings, failed, winner);
    assert(crate::selection::is_next_best(bids, readings, failed, winner));
    law_highest_other_bid_replaces(bids, readings, failed, winner);
    assert forall|i: int| 0 <= i < readings.len() implies crate::clock::clock_shows(
        #[trigger] readings[i],
    ) by {}
}

/// The auction of an order is due exactly where the order is in the auction, was created
/// five seconds ago or earlier, and has no commitment of its own.
pub proof fn law_auction_is_due_five_seconds_after_creation(
    book: OrderBook,
    id: OrderId,
    now: Timestamp,
)
    ensures
        book.due(id, now) <==> book.auction.contains_key(id) && !book.commitments.contains_key(id)
            && book.auction[id].creation_time + 5 <= now,
{
}

/// Whether an order is due rests on its own entries alone, whatever is in the book of others;
/// an auction that is due stays due as time goes on.
pub proof fn law_due_rests_on_the_order_alone(
    book: OrderBook,
    other: OrderBook,
    id: OrderId,
    now: Timestamp,
    later: Timestamp,
)
    requires
        book.auction.contains_key(id) == other.auction.contains_key(id),
        book.auction.contains_key(id) ==> book.auction[id] == other.auction[id],
        book.commitments.contains_key(id) == other.commitments.contains_key(id),
        now <= later,
    ensures
        book.due(id, now) == other.due(id, now),
        book.due(id, now) ==> other.due(id, later),
{
}

/// A commitment is settled exactly where its order has one, and more than two seconds have
/// passed since the deadline.
pub proof fn law_commitment_settles_after_the_grace_period(
    book: OrderBook,
    id: OrderId,
    now: Timestamp,
)
    ensures
        book.settles(id, now) <==> book.commitments.contains_key(id)
            && book.commitments[id].deadline + 2 < now,
{
}

/// Whether a commitment is settled rests on it alone; one that is overdue stays so as time
/// goes on.
pub proof fn law_settling_rests_on_the_commitment_alone(
    book: OrderBook,
    other: OrderBook,
    id: OrderId,
    now: Timestamp,
    later: Timestamp,
)
    requires
        book.commitments.contains_key(id) == other.commitments.contains_key(id),
        book.commitments.contains_key(id) ==> book.commitments[id] == other.commitments[id],
        now <= later,
    ensures
        book.settles(id, now) == other.settles(id, now),
        book.settles(id, now) ==> other.settles(id, later),
{
}

/// A commitment is to what the bid says: its solver, its input and the output that it
/// promises. The deadline is ten seconds ahead, or the end of the bid's validity where that
/// is earlier.
pub proof fn law_commitment_is_to_the_bid(order_id: OrderId, bid: Bid, now: Timestamp)
    ensures
        ({
            let commitment = crate::auction::commitment_to(order_id, bid, now);
            &&& commitment.order_id == order_id
            &&& commitment.solver_id == bid.solver_id
            &&& commitment.input_amount == bid.max_input
            &&& commitment.min_output_amount == bid.conversion_rate.output(bid.max_input)
            &&& commitment.deadline <= bid.valid_till
            &&& commitment.deadline <= now + 10
            &&& commitment.deadline == bid.valid_till || commitment.deadline == now + 10
        }),
{
}

/// How an auction ends: the order is given up where no bid was selected; the selected bid
/// becomes a commitment where it is valid at the time of the round, and lapses otherwise.
pub proof fn law_auction_ends_by_its_winner(
    order_id: OrderId,
    winner: Option<Bid>,
    now: Timestamp,
)
    ensures
        ({
            let outcome = crate::auction::outcome_of(order_id, winner, now);
            match winner {
                Some(bid) => if now <= bid.valid_till {
                    outcome == AuctionOutcome::Committed(
                        crate::auction::commitment_to(order_id, bid, now),
                    )
                } else {
                    outcome == AuctionOutcome::Lapsed(bid)
                },
                None => outcome is Expired,
            }
        }),
{
}

/// What becomes of an order whose solver failed: it is given up where no replacement was
/// selected or the selected one is not valid at the time of the round; otherwise that one
/// becomes the commitment.
pub proof fn law_reassignment_goes_by_its_winner(
    order_id: OrderId,
    winner: Option<Bid>,
    now: Timestamp,
)
    ensures
        ({
            let outcome = crate::settlement::reassignment(order_id, winner, now);
            match winner {
                Some(bid) => if now <= bid.valid_till {
                    outcome == SettlementOutcome::Reassigned(
                        crate::auction::commitment_to(order_id, bid, now),
                    )
                } else {
                    outcome == SettlementOutcome::Lapsed(bid)
                },
                None => outcome is Abandoned,
            }
        }),
{
}

/// The auctions that are closed in a round at the time `now` are those of the orders that
/// are in the auction, were created five seconds ago or earlier and have no commitment, each
/// once. Each ends as a selection among the bids of its order has it.
pub proof fn law_round_closes_all_due_auctions(
    book: OrderBook,
    closed: Seq<ClosedAuction>,
    now: Timestamp,
    id: OrderId,
)
    requires
        crate::auction::all_closed(closed, book, now),
    ensures
        (exists|i: int| 0 <= i < closed.len() && (#[trigger] closed[i]).order_id == id) <==> (
        book.auction.contains_key(id) && !book.commitments.contains_key(id)
            && book.auction[id].creation_time + 5 <= now),
        forall|i: int, j: int|
            0 <= i < j < closed.len() ==> (#[trigger] closed[i]).order_id != (
            #[trigger] closed[j]).order_id,
        forall|i: int|
            0 <= i < closed.len() ==> exists|winner: Option<Bid>|
                {
                    &&& #[trigger] book.may_select((#[trigger] closed[i]).order_id, winner)
                    &&& match winner {
                        Some(bid) => if now <= bid.valid_till {
                            closed[i].outcome == AuctionOutcome::Committed(
                                crate::auction::commitment_to(closed[i].order_id, bid, now),
                            )
                        } else {
                            closed[i].outcome == AuctionOutcome::Lapsed(bid)
                        },
                        None => closed[i].outcome is Expired,
                    }
                },
{
    let ids = crate::auction::closed_ids(closed);
    assert(ids.contains(id) <==> book.due(id, now));
    if ids.contains(id) {
        let i = choose|i: int| 0 <= i < ids.len() && ids[i] == id;
        assert(closed[i].order_id == id);
    }
    if exists|i: int| 0 <= i < closed.len() && (#[trigger] closed[i]).order_id == id {
        let i = choose|i: int| 0 <= i < closed.len() && (#[trigger] closed[i]).order_id == id;
        assert(ids[i] == id);
    }
    assert forall|i: int, j: int| 0 <= i < j < closed.len() implies (
    #[trigger] closed[i]).order_id != (#[trigger] closed[j]).order_id by {
        assert(ids[i] != ids[j]);
    }
    assert forall|i: int| 0 <= i < closed.len() implies exists|winner: Option<Bid>|
        {
            &&& #[trigger] book.may_select((#[trigger] closed[i]).order_id, winner)
            &&& match winner {
                Some(bid) => if now <= bid.valid_till {
                    closed[i].outcome == AuctionOutcome::Committed(
                        crate::auction::commitment_to(closed[i].order_id, bid, now),
                    )
                } else {
                    closed[i].outcome == AuctionOutcome::Lapsed(bid)
                },
                None => closed[i].outcome is Expired,
            }
        } by {
        assert(crate::auction::rightly_closed(closed[i], book, now));
        let order_id = closed[i].order_id;
        let winner = choose|winner: Option<Bid>|
            book.may_select(order_id, winner) && closed[i].outcome
                == #[trigger] crate::auction::outcome_of(order_id, winner, now);
        assert(closed[i].outcome == crate::auction::outcome_of(order_id, winner, now));
        law_auction_ends_by_its_winner(order_id, winner, now);
        assert(book.may_select(order_id, winner));
    }
}

/// An order is not given up at the end of its auction where it has a bid that is valid at
/// every time that the clock shows.
pub proof fn law_order_with_a_valid_bid_is_not_given_up(
    book: OrderBook,
    closed: Seq<ClosedAuction>,
    now: Timestamp,
    i: int,
    j: int,
)
    requires
        crate::auction::all_closed(closed, book, now),
        0 <= i < closed.len(),
        book.bids.contains_key(closed[i].order_id),
        0 <= j < book.bids[closed[i].order_id].len(),
        forall|time: Timestamp|
            #[trigger] crate::clock::clock_shows(time) ==> time
                <= book.bids[closed[i].order_id][j].valid_till,
    ensures
        !(closed[i].outcome is Expired),
{
    let id = closed[i].order_id;
    law_round_closes_all_due_auctions(book, closed, now, id);
    assert(closed[i].order_id == id);
    let winner = choose|winner: Option<Bid>|
        {
            &&& #[trigger] book.may_select(id, winner)
            &&& match winner {
                Some(bid) => if now <= bid.valid_till {
                    closed[i].outcome == AuctionOutcome::Committed(
                        crate::auction::commitment_to(id, bid, now),
                    )
                } else {
                    closed[i].outcome == AuctionOutcome::Lapsed(bid)
                },
                None => closed[i].outcome is Expired,
            }
        };
    assert(book.may_select(id, winner));
    law_selection_is_among_the_orders_bids(book, id, winner);
    let readings = choose|readings: Seq<Timestamp>|
        {
            &&& readings.len() == book.bids[id].len()
            &&& forall|i: int|
                0 <= i < readings.len() ==> crate::clock::clock_shows(#[trigger] readings[i])
            &&& #[trigger] crate::selection::is_best(book.bids[id], readings, winner)
        };
    law_highest_valid_bid_wins(book.bids[id], readings, winner);
    assert(crate::clock::clock_shows(readings[j]));
    assert(book.bids[id][j].valid_till >= readings[j]);
}

/// What one closed auction does to the book: a commitment takes the order out of the auction
/// and leaves its bids; an order that is given up leaves the auction with its bids; a lapsed
/// bid changes nothing. No other order is touched, and no pending one.
pub proof fn law_closed_auction_changes_its_order(
    book: OrderBook,
    closed: ClosedAuction,
    id: OrderId,
)
    ensures
        ({
            let after = book.after_closing(closed);
            let own = id == closed.order_id;
            let committed = closed.outcome is Committed;
            let expired = closed.outcome is Expired;
            &&& after.pending == book.pending
            &&& after.auction.contains_key(id) == (book.auction.contains_key(id) && !(own && (
            committed || expired)))
            &&& after.auction.contains_key(id) ==> after.auction[id] == book.auction[id]
            &&& after.bids.contains_key(id) == (book.bids.contains_key(id) && !(own && expired))
            &&& after.bids.contains_key(id) ==> after.bids[id] == book.bids[id]
            &&& after.commitments.contains_key(id) == (book.commitments.contains_key(id) || (own
                && committed))
            &&& own && committed ==> after.commitments[id] == closed.outcome->Committed_0
            &&& book.commitments.contains_key(id) && !(own && committed) ==> after.commitments[id]
                == book.commitments[id]
        }),
{
}

/// The same of one settlement: a reassignment replaces the commitment and leaves the bids;
/// in every other case the order is gone with its commitment and its bids. The auctions, the
/// pending orders and all other orders stay.
pub proof fn law_settlement_changes_its_order(book: OrderBook, settled: Settlement, id: OrderId)
    ensures
        ({
            let after = book.after_settlement(settled);
            let own = id == settled.order_id;
            let reassigned = settled.outcome is Reassigned;
            &&& after.pending == book.pending
            &&& after.auction == book.auction
            &&& after.bids.contains_key(id) == (book.bids.contains_key(id) && (reassigned || !own))
            &&& after.bids.contains_key(id) ==> after.bids[id] == book.bids[id]
            &&& after.commitments.contains_key(id) == (if own {
                reassigned
            } else {
                book.commitments.contains_key(id)
            })
            &&& own && reassigned ==> after.commitments[id] == settled.outcome->Reassigned_0
            &&& !own && book.commitments.contains_key(id) ==> after.commitments[id]
                == book.commitments[id]
        }),
{
}

/// Closing auctions in two goes is closing them in one.
pub proof fn law_closings_follow_each_other(
    book: OrderBook,
    first: Seq<ClosedAuction>,
    second: Seq<ClosedAuction>,
    one: ClosedAuction,
)
    ensures
        book.after_closings(first + second) == book.after_closings(first).after_closings(second),
        book.after_closings(seq![one]) == book.after_closing(one),
        book.after_closings(seq![]) == book,
    decreases second.len(),
{
    reveal_with_fuel(OrderBook::after_closings, 2);
    assert(seq![one].drop_last() =~= seq![]);
    if second.len() == 0 {
        assert(first + second =~= first);
    } else {
        law_closings_follow_each_other(book, first, second.drop_last(), one);
        assert((first + second).drop_last() =~= first + second.drop_last());
    }
}

/// Settling commitments in two goes is settling them in one.
pub proof fn law_settlements_follow_each_other(
    book: OrderBook,
    first: Seq<Settlement>,
    second: Seq<Settlement>,
    one: Settlement,
)
    ensures
        book.after_settlements(first + second) == book.after_settlements(first).after_settlements(
            second,
        ),
        book.after_settlements(seq![one]) == book.after_settlement(one),
        book.after_settlements(seq![]) == book,
    decreases second.len(),
{
    reveal_with_fuel(OrderBook::after_settlements, 2);
    assert(seq![one].drop_last() =~= seq![]);
    if second.len() == 0 {
        assert(first + second =~= first);
    } else {
        law_settlements_follow_each_other(book, first, second.drop_last(), one);
        assert((first + second).drop_last() =~= first + second.drop_last());
    }
}

/// Each closed auction is logged and told to the solvers by itself, in turn: a commitment as
/// the selection of its bid, an order that is given up as expired, and a lapsed bid not at
/// all.
pub proof fn law_closings_are_told_in_turn(
    first: Seq<ClosedAuction>,
    second: Seq<ClosedAuction>,
    one: ClosedAuction,
)
    ensures
        crate::auction::closing_events(first + second) == crate::auction::closing_events(first)
            + crate::auction::closing_events(second),
        crate::auction::award_messages(first + second) == crate::auction::award_messages(first)
            + crate::auction::award_messages(second),
        crate::auction::no_winner_messages(first + second) == crate::auction::no_winner_messages(
            first,
        ) + crate::auction::no_winner_messages(second),
        crate::auction::closing_events(seq![one]) == crate::auction::closing_event(one),
        match one.outcome {
            AuctionOutcome::Committed(commitment) => {
                &&& crate::auction::closing_event(one) == seq![
                    ChainEvent::BidSelected {
                        order_id: one.order_id,
                        solver_id: commitment.solver_id,
                        commitment,
                    },
                ]
                &&& crate::auction::award_messages(seq![one]) == seq![
                    SequencerToSolverMessage::CommitmentNotification(commitment),
                ]
                &&& crate::auction::no_winner_messages(seq![one]).len() == 0
            },
            AuctionOutcome::Lapsed(_) => {
                &&& crate::auction::closing_event(one).len() == 0
                &&& crate::auction::award_messages(seq![one]).len() == 0
                &&& crate::auction::no_winner_messages(seq![one]).len() == 0
            },
            AuctionOutcome::Expired => {
                &&& crate::auction::closing_event(one) == seq![
                    ChainEvent::OrderExpired(one.order_id),
                ]
                &&& crate::auction::award_messages(seq![one]).len() == 0
                &&& crate::auction::no_winner_messages(seq![one]) == seq![
                    SequencerToSolverMessage::AuctionClosedNoWinner(one.order_id),
                ]
            },
        },
    decreases second.len(),
{
    reveal_with_fuel(crate::auction::closing_events, 2);
    reveal_with_fuel(crate::auction::award_messages, 2);
    reveal_with_fuel(crate::auction::no_winner_messages, 2);
    assert(seq![one].drop_last() =~= seq![]);
    assert(crate::auction::closing_events(seq![one]) =~= crate::auction::closing_event(one));
    if second.len() == 0 {
        assert(first + second =~= first);
    } else {
        law_closings_are_told_in_turn(first, second.drop_last(), one);
        assert((first + second).drop_last() =~= first + second.drop_last());
        assert(crate::auction::closing_events(first + second) =~= crate::auction::closing_events(
            first,
        ) + crate::auction::closing_events(second));
    }
    assert(crate::auction::award_messages(first + second) =~= crate::auction::award_messages(first)
        + crate::auction::award_messages(second));
    assert(crate::auction::no_winner_messages(first + second)
        =~= crate::auction::no_winner_messages(first) + crate::auction::no_winner_messages(second));
    if one.outcome is Committed {
        let commitment = one.outcome->Committed_0;
        assert(crate::auction::award_messages(seq![one]) =~= seq![
            SequencerToSolverMessage::CommitmentNotification(commitment),
        ]);
    } else if one.outcome is Expired {
        assert(crate::auction::no_winner_messages(seq![one]) =~= seq![
            SequencerToSolverMessage::AuctionClosedNoWinner(one.order_id),
        ]);
    }
}

/// The verdict on each solver is logged, in turn: that it fulfilled the order, or that it
/// failed to.
pub proof fn law_verdicts_are_logged_in_turn(settled: Seq<Settlement>, i: int)
    ensures
        crate::settlement::verdict_events(settled).len() == settled.len(),
        0 <= i < settled.len() ==> crate::settlement::verdict_events(settled)[i] == (
        if settled[i].outcome is Fulfilled {
            ChainEvent::OrderFulfilled {
                order_id: settled[i].order_id,
                solver_id: settled[i].solver_id,
            }
        } else {
            ChainEvent::OrderFailedToFulfill {
                order_id: settled[i].order_id,
                solver_id: settled[i].solver_id,
            }
        }),
{
}

/// What follows from each failure is logged and told to the solvers by itself, in turn: a
/// reassignment with the old and the new solver, and any other failure as the end of the
/// order. Of a fulfilled order nothing more is said.
pub proof fn law_settlements_are_told_in_turn(
    first: Seq<Settlement>,
    second: Seq<Settlement>,
    one: Settlement,
)
    ensures
        crate::settlement::follow_up_events(first + second) == crate::settlement::follow_up_events(
            first,
        ) + crate::settlement::follow_up_events(second),
        crate::settlement::reassignment_messages(first + second)
            == crate::settlement::reassignment_messages(first)
            + crate::settlement::reassignment_messages(second),
        crate::settlement::given_up_messages(first + second)
            == crate::settlement::given_up_messages(first) + crate::settlement::given_up_messages(
            second,
        ),
        crate::settlement::follow_up_events(seq![one]) == crate::settlement::follow_up_event(one),
        match one.outcome {
            SettlementOutcome::Fulfilled => {
                &&& crate::settlement::follow_up_event(one).len() == 0
                &&& crate::settlement::reassignment_messages(seq![one]).len() == 0
                &&& crate::settlement::given_up_messages(seq![one]).len() == 0
            },
            SettlementOutcome::Reassigned(commitment) => {
                &&& crate::settlement::follow_up_event(one) == seq![
                    ChainEvent::OrderReassigned {
                        order_id: one.order_id,
                        prev_solver_id: one.solver_id,
                        new_solver_id: commitment.solver_id,
                        new_commitment: commitment,
                    },
                ]
                &&& crate::settlement::reassignment_messages(seq![one]) == seq![
                    SequencerToSolverMessage::CommitmentNotification(commitment),
                ]
                &&& crate::settlement::given_up_messages(seq![one]).len() == 0
            },
            _ => {
                &&& crate::settlement::follow_up_event(one) == seq![
                    ChainEvent::OrderExpired(one.order_id),
                ]
                &&& crate::settlement::reassignment_messages(seq![one]).len() == 0
                &&& crate::settlement::given_up_messages(seq![one]) == seq![
                    SequencerToSolverMessage::AuctionClosedNoWinner(one.order_id),
                ]
            },
        },
    decreases second.len(),
{
    reveal_with_fuel(crate::settlement::follow_up_events, 2);
    reveal_with_fuel(crate::settlement::reassignment_messages, 2);
    reveal_with_fuel(crate::settlement::given_up_messages, 2);
    assert(seq![one].drop_last() =~= seq![]);
    assert(crate::settlement::follow_up_events(seq![one]) =~= crate::settlement::follow_up_event(
        one,
    ));
    if second.len() == 0 {
        assert(first + second =~= first);
    } else {
        law_settlements_are_told_in_turn(first, second.drop_last(), one);
        assert((first + second).drop_last() =~= first + second.drop_last());
        assert(crate::settlement::follow_up_events(first + second)
            =~= crate::settlement::follow_up_events(first) + crate::settlement::follow_up_events(
            second,
        ));
    }
    assert(crate::settlement::reassignment_messages(first + second)
        =~= crate::settlement::reassignment_messages(first)
        + crate::settlement::reassignment_messages(second));
    assert(crate::settlement::given_up_messages(first + second)
        =~= crate::settlement::given_up_messages(first) + crate::settlement::given_up_messages(
        second,
    ));
    match one.outcome {
        SettlementOutcome::Fulfilled => {},
        SettlementOutcome::Reassigned(commitment) => {
            assert(crate::settlement::reassignment_messages(seq![one]) =~= seq![
                SequencerToSolverMessage::CommitmentNotification(commitment),
            ]);
        },
        _ => {
            assert(crate::settlement::given_up_messages(seq![one]) =~= seq![
                SequencerToSolverMessage::AuctionClosedNoWinner(one.order_id),
            ]);
        },
    }
}

/// The commitments that are settled in a round at the time `now` are those whose deadline
/// passed more than two seconds ago, each once and under the name of its solver. The order
/// is fulfilled exactly where that solver's claim on it was recorded by the deadline; the
/// others end as the selection of a replacement has it.
pub proof fn law_round_settles_all_overdue_commitments(
    book: OrderBook,
    claims: Map<(OrderId, Seq<char>), Timestamp>,
    settled: Seq<Settlement>,
    now: Timestamp,
    id: OrderId,
)
    requires
        crate::settlement::all_settled(settled, book, claims, now),
    ensures
        (exists|i: int| 0 <= i < settled.len() && (#[trigger] settled[i]).order_id == id) <==> (
        book.commitments.contains_key(id) && book.commitments[id].deadline + 2 < now),
        forall|i: int, j: int|
            0 <= i < j < settled.len() ==> (#[trigger] settled[i]).order_id != (
            #[trigger] settled[j]).order_id,
        forall|i: int|
            0 <= i < settled.len() ==> {
                let held = book.commitments[(#[trigger] settled[i]).order_id];
                let key = (settled[i].order_id, held.solver_id@);
                &&& settled[i].solver_id == held.solver_id
                &&& settled[i].outcome is Fulfilled <==> claims.contains_key(key) && claims[key]
                    <= held.deadline
            },
        forall|i: int|
            0 <= i < settled.len() && !((#[trigger] settled[i]).outcome is Fulfilled) ==> exists|
                winner: Option<Bid>,
            |
                {
                    &&& #[trigger] book.may_replace_with(
                        settled[i].order_id,
                        book.commitments[settled[i].order_id].solver_id@,
                        winner,
                    )
                    &&& match winner {
                        Some(bid) => if now <= bid.valid_till {
                            settled[i].outcome == SettlementOutcome::Reassigned(
                                crate::auction::commitment_to(settled[i].order_id, bid, now),
                            )
                        } else {
                            settled[i].outcome == SettlementOutcome::Lapsed(bid)
                        },
                        None => settled[i].outcome is Abandoned,
                    }
                },
{
    let ids = crate::settlement::settled_ids(settled);
    assert(ids.contains(id) <==> book.settles(id, now));
    if ids.contains(id) {
        let i = choose|i: int| 0 <= i < ids.len() && ids[i] == id;
        assert(settled[i].order_id == id);
    }
    if exists|i: int| 0 <= i < settled.len() && (#[trigger] settled[i]).order_id == id {
        let i = choose|i: int| 0 <= i < settled.len() && (#[trigger] settled[i]).order_id == id;
        assert(ids[i] == id);
    }
    assert forall|i: int, j: int| 0 <= i < j < settled.len() implies (
    #[trigger] settled[i]).order_id != (#[trigger] settled[j]).order_id by {
        assert(ids[i] != ids[j]);
    }
    assert forall|i: int| 0 <= i < settled.len() implies {
        let held = book.commitments[(#[trigger] settled[i]).order_id];
        let key = (settled[i].order_id, held.solver_id@);
        &&& settled[i].solver_id == held.solver_id
        &&& settled[i].outcome is Fulfilled <==> claims.contains_key(key) && claims[key]
            <= held.deadline
    } by {
        assert(crate::settlement::rightly_settled(settled[i], book, claims, now));
        let held = book.commitments[settled[i].order_id];
        let key = (settled[i].order_id, held.solver_id@);
        if !(claims.contains_key(key) && claims[key] <= held.deadline) {
            crate::laws::law_without_timely_claim_not_fulfilled(settled[i], book, claims, now);
        }
    }
    assert forall|i: int|
        0 <= i < settled.len() && !((#[trigger] settled[i]).outcome is Fulfilled) implies exists|
        winner: Option<Bid>,
    |
        {
            &&& #[trigger] book.may_replace_with(
                settled[i].order_id,
                book.commitments[settled[i].order_id].solver_id@,
                winner,
            )
            &&& match winner {
                Some(bid) => if now <= bid.valid_till {
                    settled[i].outcome == SettlementOutcome::Reassigned(
                        crate::auction::commitment_to(settled[i].order_id, bid, now),
                    )
                } else {
                    settled[i].outcome == SettlementOutcome::Lapsed(bid)
                },
                None => settled[i].outcome is Abandoned,
            }
        } by {
        assert(crate::settlement::rightly_settled(settled[i], book, claims, now));
        let order_id = settled[i].order_id;
        let failed = book.commitments[order_id].solver_id@;
        let winner = choose|winner: Option<Bid>|
            book.may_replace_with(order_id, failed, winner) && settled[i].outcome
                == #[trigger] crate::settlement::reassignment(order_id, winner, now);
        assert(settled[i].outcome == crate::settlement::reassignment(order_id, winner, now));
        law_reassignment_goes_by_its_winner(order_id, winner, now);
        assert(book.may_replace_with(order_id, failed, winner));
    }
}

/// An order whose solver failed goes to another where one has a bid for it that is valid at
/// every time that the clock shows: it is not abandoned.
pub proof fn law_order_with_another_valid_bid_is_not_abandoned(
    book: OrderBook,
    claims: Map<(OrderId, Seq<char>), Timestamp>,
    settled: Seq<Settlement>,
    now: Timestamp,
    i: int,
    j: int,
)
    requires
        crate::settlement::all_settled(settled, book, claims, now),
        0 <= i < settled.len(),
        book.bids.contains_key(settled[i].order_id),
        0 <= j < book.bids[settled[i].order_id].len(),
        book.bids[settled[i].order_id][j].solver_id@ != settled[i].solver_id@,
        forall|time: Timestamp|
            #[trigger] crate::clock::clock_shows(time) ==> time
                <= book.bids[settled[i].order_id][j].valid_till,
    ensures
        !(settled[i].outcome is Abandoned),
{
    let id = settled[i].order_id;
    law_round_settles_all_overdue_commitments(book, claims, settled, now, id);
    if !(settled[i].outcome is Fulfilled) {
        let failed = book.commitments[id].solver_id@;
        let winner = choose|winner: Option<Bid>|
            {
                &&& #[trigger] book.may_replace_with(id, failed, winner)
                &&& match winner {
                    Some(bid) => if now <= bid.valid_till {
                        settled[i].outcome == SettlementOutcome::Reassigned(
                            crate::auction::commitment_to(id, bid, now),
                        )
                    } else {
                        settled[i].outcome == SettlementOutcome::Lapsed(bid)
                    },
                    None => settled[i].outcome is Abandoned,
                }
            };
        assert(book.may_replace_with(id, failed, winner));
        law_replacement_is_among_the_orders_bids(book, id, failed, winner);
        let readings = choose|readings: Seq<Timestamp>|
            {
                &&& readings.len() == book.bids[id].len()
                &&& forall|i: int|
                    0 <= i < readings.len() ==> crate::clock::clock_shows(#[trigger] readings[i])
                &&& #[trigger] crate::selection::is_next_best(
                    book.bids[id],
                    readings,
                    failed,
                    winner,
                )
            };
        law_highest_other_bid_replaces(book.bids[id], readings, failed, winner);
        assert(crate::clock::clock_shows(readings[j]));
        assert(book.bids[id][j].solver_id@ != failed && book.bids[id][j].valid_till >= readings[j]);
    }
}

/// Settlements use up the claims of their solvers on their orders, and no others.
pub proof fn law_settlements_take_their_claims_only(
    claims: Map<(OrderId, Seq<char>), Timestamp>,
    settled: Seq<Settlement>,
    order_id: OrderId,
    solver_id: Seq<char>,
)
    ensures
        ({
            let left = crate::settlement::claims_left(claims, settled);
            let key = (order_id, solver_id);
            &&& left.contains_key(key) <==> claims.contains_key(key) && !(exists|i: int|
                0 <= i < settled.len() && (#[trigger] settled[i]).order_id == order_id
                    && settled[i].solver_id@ == solver_id)
            &&& left.contains_key(key) ==> left[key] == claims[key]
        }),
{
    let keys = settled.map_values(|s: Settlement| (s.order_id, s.solver_id@));
    let key = (order_id, solver_id);
    if keys.to_set().contains(key) {
        let i = choose|i: int| 0 <= i < keys.len() && keys[i] == key;
        assert(settled[i].order_id == order_id && settled[i].solver_id@ == solver_id);
    }
    if exists|i: int|
        0 <= i < settled.len() && (#[trigger] settled[i]).order_id == order_id
            && settled[i].solver_id@ == solver_id {
        let i = choose|i: int|
            0 <= i < settled.len() && (#[trigger] settled[i]).order_id == order_id
                && settled[i].solver_id@ == solver_id;
        assert(keys[i] == key);
        assert(keys.to_set().contains(key));
    }
}

/// Two books that hold the same of an order have the same entries under its id: in the
/// auction, among the bids and among the commitments.
pub proof fn law_same_order_has_the_same_entries(one: OrderBook, other: OrderBook, id: OrderId)
    requires
        one.same_order(other, id),
    ensures
        one.auction.contains_key(id) == other.auction.contains_key(id),
        one.auction.contains_key(id) ==> one.auction[id] == other.auction[id],
        one.bids.contains_key(id) == other.bids.contains_key(id),
        one.bids.contains_key(id) ==> one.bids[id] == other.bids[id],
        one.commitments.contains_key(id) == other.commitments.contains_key(id),
        one.commitments.contains_key(id) ==> one.commitments[id] == other.commitments[id],
{
}

} // verus!
