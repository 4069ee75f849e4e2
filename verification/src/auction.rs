//! The second phase of a round: the auctions whose time is up are closed, and the best bid
//! of each becomes a commitment.
use crate::chain_log::ChainLog;
use crate::order_state::{order_ids, OrderBook, OrderStateManager};
use crate::types::{
    Bid, ChainEvent, Commitment, OrderId, SequencerToSolverMessage, Timestamp,
    BID_COLLECTION_PERIOD_SECS, COMMITMENT_DURATION_SECS,
};
use vstd::prelude::*;

verus! {

broadcast use vstd::std_specs::hash::group_hash_axioms;

/// How the auction of an order ended.
#[derive(Debug)]
pub enum AuctionOutcome {
    /// The best bid became this commitment.
    Committed(Commitment),
    /// This was the best bid, but its validity ended before the round began: the auction
    /// stays open.
    Lapsed(Bid),
    /// No bid was valid: the order is given up.
    Expired,
}

/// The end of the auction of one order.
#[derive(Debug)]
pub struct ClosedAuction {
    pub order_id: OrderId,
    pub outcome: AuctionOutcome,
}

/// The deadline of a commitment made at the time `now`.
pub open spec fn deadline_for(valid_till: Timestamp, now: Timestamp) -> Timestamp {
    if now + COMMITMENT_DURATION_SECS <= valid_till {
        (now + COMMITMENT_DURATION_SECS) as Timestamp
    } else {
        valid_till
    }
}

/// The commitment to the solver that made `bid`.
pub open spec fn commitment_to(order_id: OrderId, bid: Bid, now: Timestamp) -> Commitment {
    Commitment {
        order_id,
        solver_id: bid.solver_id,
        input_amount: bid.max_input,
        min_output_amount: bid.promised_output(),
        deadline: deadline_for(bid.valid_till, now),
    }
}

/// How an auction ends at the time `now` with `winner` selected.
pub open spec fn outcome_of(
    order_id: OrderId,
    winner: Option<Bid>,
    now: Timestamp,
) -> AuctionOutcome {
    match winner {
        Some(bid) => if bid.valid_at(now) {
            AuctionOutcome::Committed(commitment_to(order_id, bid, now))
        } else {
            AuctionOutcome::Lapsed(bid)
        },
        None => AuctionOutcome::Expired,
    }
}

impl OrderBook {
    /// Whether the auction of the order is to be closed at the time `now`.
    pub open spec fn due(self, order_id: OrderId, now: Timestamp) -> bool {
        &&& self.auction.contains_key(order_id)
        &&& self.auction[order_id].creation_time + BID_COLLECTION_PERIOD_SECS <= now
        &&& !self.commitments.contains_key(order_id)
    }

    /// The book after one auction was closed.
    pub open spec fn after_closing(self, closed: ClosedAuction) -> OrderBook {
        match closed.outcome {
            AuctionOutcome::Committed(commitment) => OrderBook {
                auction: self.auction.remove(closed.order_id),
                commitments: self.commitments.insert(closed.order_id, commitment),
                ..self
            },
            AuctionOutcome::Lapsed(_) => self,
            AuctionOutcome::Expired => OrderBook {
                auction: self.auction.remove(closed.order_id),
                bids: self.bids.remove(closed.order_id),
                ..self
            },
        }
    }

    /// The book after the auctions were closed one after the other.
    pub open spec fn after_closings(self, closed: Seq<ClosedAuction>) -> OrderBook
        decreases closed.len(),
    {
        if closed.len() == 0 {
            self
        } else {
            self.after_closings(closed.drop_last()).after_closing(closed.last())
        }
    }
}

/// What is logged of a closed auction.
pub open spec fn closing_event(closed: ClosedAuction) -> Seq<ChainEvent> {
    match closed.outcome {
        AuctionOutcome::Committed(commitment) => seq![
            ChainEvent::BidSelected {
                order_id: closed.order_id,
                solver_id: commitment.solver_id,
                commitment,
            },
        ],
        AuctionOutcome::Lapsed(_) => seq![],
        AuctionOutcome::Expired => seq![ChainEvent::OrderExpired(closed.order_id)],
    }
}

pub open spec fn closing_events(closed: Seq<ClosedAuction>) -> Seq<ChainEvent>
    decreases closed.len(),
{
    if closed.len() == 0 {
        seq![]
    } else {
        closing_events(closed.drop_last()) + closing_event(closed.last())
    }
}

/// Notifications of the commitments, in the order of the auctions.
pub open spec fn award_messages(closed: Seq<ClosedAuction>) -> Seq<SequencerToSolverMessage>
    decreases closed.len(),
{
    if closed.len() == 0 {
        seq![]
    } else {
        match closed.last().outcome {
            AuctionOutcome::Committed(commitment) => award_messages(closed.drop_last()).push(
                SequencerToSolverMessage::CommitmentNotification(commitment),
            ),
            _ => award_messages(closed.drop_last()),
        }
    }
}

/// Notifications of the auctions that nobody won, in the order of the auctions.
pub open spec fn no_winner_messages(closed: Seq<ClosedAuction>) -> Seq<SequencerToSolverMessage>
    decreases closed.len(),
{
    if closed.len() == 0 {
        seq![]
    } else {
        match closed.last().outcome {
            AuctionOutcome::Expired => no_winner_messages(closed.drop_last()).push(
                SequencerToSolverMessage::AuctionClosedNoWinner(closed.last().order_id),
            ),
            _ => no_winner_messages(closed.drop_last()),
        }
    }
}

/// The orders of the closed auctions.
pub open spec fn closed_ids(closed: Seq<ClosedAuction>) -> Seq<OrderId> {
    closed.map_values(|c: ClosedAuction| c.order_id)
}

/// Whether the auction ended as a selection among the order's bids at some readings of the
/// clock has it.
pub open spec fn rightly_closed(closed: ClosedAuction, book: OrderBook, now: Timestamp) -> bool {
    exists|winner: Option<Bid>|
        book.may_select(closed.order_id, winner) && closed.outcome == #[trigger] outcome_of(
            closed.order_id,
            winner,
            now,
        )
}

/// Whether `closed` are the ends of all auctions that are due at the time `now`, each
/// closed once and rightly.
pub open spec fn all_closed(closed: Seq<ClosedAuction>, book: OrderBook, now: Timestamp) -> bool {
    &&& closed_ids(closed).no_duplicates()
    &&& forall|id: OrderId| #[trigger] closed_ids(closed).contains(id) <==> book.due(id, now)
    &&& forall|i: int|
        0 <= i < closed.len() ==> rightly_closed(#[trigger] closed[i], book, now)
}

/// The commitment to the solver that made `bid`. Its deadline lies at most the commitment
/// duration ahead, and not after the end of the bid's validity.
pub fn commit(order_id: OrderId, bid: &Bid, now: Timestamp) -> (commitment: Commitment)
    ensures
        commitment == commitment_to(order_id, *bid, now),
{
    let deadline: Timestamp = if bid.valid_till >= COMMITMENT_DURATION_SECS && now
        <= bid.valid_till - COMMITMENT_DURATION_SECS {
        now + COMMITMENT_DURATION_SECS
    } else {
        bid.valid_till
    };
    Commitment {
        order_id,
        solver_id: bid.solver_id.clone(),
        input_amount: bid.max_input,
        min_output_amount: bid.min_output(),
        deadline,
    }
}

/// The orders whose auctions are to be closed at the time `now`, in the order in which the
/// auctions are walked.
pub fn due_orders(order_state: &OrderStateManager, now: Timestamp) -> (due: Vec<OrderId>)
    ensures
        due@.no_duplicates(),
        forall|id: OrderId| #[trigger] due@.contains(id) <==> order_state@.due(id, now),
{
    let ids = order_ids(&order_state.active_orders_in_auction);
    let mut due: Vec<OrderId> = Vec::new();
    let mut i: usize = 0;
    while i < ids.len()
        invariant
            i <= ids.len(),
            ids@.no_duplicates(),
            forall|id: OrderId| #[trigger]
                ids@.contains(id) <==> order_state@.auction.contains_key(id),
            due@.no_duplicates(),
            forall|id: OrderId| #[trigger]
                due@.contains(id) <==> ids@.take(i as int).contains(id) && order_state@.due(
                    id,
                    now,
                ),
        decreases ids.len() - i,
    {
        let id: OrderId = ids[i];
        assert(ids@.contains(id));
        let ghost seen = ids@.take(i as int);
        let ghost before = due@;
        assert(!seen.contains(id) && !before.contains(id));
        assert(ids@.take(i + 1) =~= seen.push(id));
        if let Some(order) = order_state.active_orders_in_auction.get(&id) {
            if now >= BID_COLLECTION_PERIOD_SECS && order.creation_time <= now
                - BID_COLLECTION_PERIOD_SECS && !order_state.active_commitments.contains_key(&id) {
                due.push(id);
            }
        }
        proof {
            assert forall|other: OrderId| #[trigger] due@.contains(other) <==> ids@.take(
                i + 1,
            ).contains(other) && order_state@.due(other, now) by {
                crate::order_state::lemma_push_contains(seen, id, other);
                crate::order_state::lemma_push_contains(before, id, other);
            }
        }
        i = i + 1;
    }
    assert(ids@.take(i as int) =~= ids@);
    due
}

/// Closes the auction of the order with `winner` selected.
pub fn close_auction(
    order_state: &mut OrderStateManager,
    chain_log: &mut ChainLog,
    order_id: OrderId,
    winner: Option<Bid>,
    now: Timestamp,
) -> (closed: ClosedAuction)
    ensures
        closed.order_id == order_id,
        closed.outcome == outcome_of(order_id, winner, now),
        final(order_state)@ == old(order_state)@.after_closing(closed),
        final(chain_log)@ == old(chain_log)@ + closing_event(closed),
{
    let outcome = match winner {
        Some(bid) => if bid.valid_till >= now {
            let commitment = commit(order_id, &bid, now);
            order_state.active_orders_in_auction.remove(&order_id);
            order_state.active_commitments.insert(order_id, commitment.clone());
            chain_log.log_event(
                ChainEvent::BidSelected {
                    order_id,
                    solver_id: commitment.solver_id.clone(),
                    commitment: commitment.clone(),
                },
            );
            AuctionOutcome::Committed(commitment)
        } else {
            AuctionOutcome::Lapsed(bid)
        },
        None => {
            order_state.active_orders_in_auction.remove(&order_id);
            order_state.received_bids.remove(&order_id);
            chain_log.log_event(ChainEvent::OrderExpired(order_id));
            AuctionOutcome::Expired
        },
    };
    let closed = ClosedAuction { order_id, outcome };
    assert(order_state@ =~= old(order_state)@.after_closing(closed));
    assert(chain_log@ =~= old(chain_log)@ + closing_event(closed));
    closed
}

/// Closing auctions touches no other order.
pub proof fn law_closings_leave_other_orders(
    book: OrderBook,
    closed: Seq<ClosedAuction>,
    id: OrderId,
)
    requires
        !closed_ids(closed).contains(id),
    ensures
        book.after_closings(closed).same_order(book, id),
    decreases closed.len(),
{
    if closed.len() > 0 {
        let rest = closed.drop_last();
        assert forall|i: int| 0 <= i < rest.len() implies closed_ids(rest)[i] != id by {
            assert(closed_ids(closed)[i] == closed_ids(rest)[i]);
        }
        assert(closed_ids(closed)[closed.len() - 1] == closed.last().order_id);
        law_closings_leave_other_orders(book, rest, id);
    }
}

/// Of several closed auctions of different orders, each has the effect on its order that
/// it would have alone.
pub proof fn law_closings_act_one_by_one(book: OrderBook, closed: Seq<ClosedAuction>, i: int)
    requires
        closed_ids(closed).no_duplicates(),
        0 <= i < closed.len(),
    ensures
        book.after_closings(closed).same_order(
            book.after_closing(closed[i]),
            closed[i].order_id,
        ),
    decreases closed.len(),
{
    let rest = closed.drop_last();
    let id = closed[i].order_id;
    assert(closed_ids(rest) =~= closed_ids(closed).drop_last());
    if i == closed.len() - 1 {
        assert forall|j: int| 0 <= j < rest.len() implies closed_ids(rest)[j] != id by {
            assert(closed_ids(closed)[j] != closed_ids(closed)[i]);
        }
        law_closings_leave_other_orders(book, rest, id);
    } else {
        law_closings_act_one_by_one(book, rest, i);
        assert(closed_ids(closed)[i] != closed_ids(closed)[closed.len() - 1]);
        assert(closed.last().order_id != id);
    }
}

/// Closing auctions leaves the pending orders as they are.
pub proof fn law_closings_leave_pending_orders(book: OrderBook, closed: Seq<ClosedAuction>)
    ensures
        book.after_closings(closed).pending == book.pending,
    decreases closed.len(),
{
    if closed.len() > 0 {
        law_closings_leave_pending_orders(book, closed.drop_last());
    }
}

/// Closes every auction that is due at the time `now`.
///
/// The bids are judged by the clock, and the auctions are walked in no set order; whatever
/// the clock showed and whichever order it was, each auction ended as a selection at some
/// readings of the clock has it.
pub fn close_auctions(
    order_state: &mut OrderStateManager,
    chain_log: &mut ChainLog,
    now: Timestamp,
) -> (closed: Vec<ClosedAuction>)
    ensures
        all_closed(closed@, old(order_state)@, now),
        final(order_state)@ == old(order_state)@.after_closings(closed@),
        final(chain_log)@ == old(chain_log)@ + closing_events(closed@),
        old(chain_log)@.is_prefix_of(final(chain_log)@),
{
    let ghost book = order_state@;
    let ghost log = chain_log@;
    let due = due_orders(order_state, now);
    let mut closed: Vec<ClosedAuction> = Vec::new();
    let mut i: usize = 0;
    assert(chain_log@ =~= log + closing_events(closed@));
    while i < due.len()
        invariant
            i <= due.len(),
            due@.no_duplicates(),
            closed.len() == i,
            closed_ids(closed@) =~= due@.take(i as int),
            forall|j: int|
                0 <= j < closed.len() ==> rightly_closed(#[trigger] closed[j], book, now),
            order_state@ == book.after_closings(closed@),
            chain_log@ == log + closing_events(closed@),
        decreases due.len() - i,
    {
        let id: OrderId = due[i];
        proof {
            law_closings_leave_other_orders(book, closed@, id);
        }
        let winner = order_state.select_best_bid(&id);
        let ghost selected = winner;
        assert(book.may_select(id, selected));
        let ghost before = closed@;
        let one = close_auction(order_state, chain_log, id, winner, now);
        closed.push(one);
        proof {
            assert(closed@.drop_last() =~= before);
            assert(closed_ids(closed@) =~= closed_ids(before).push(id));
            assert(due@.take(i + 1) =~= due@.take(i as int).push(id));
            assert(chain_log@ =~= log + closing_events(closed@));
            assert(closed[i as int].outcome == outcome_of(id, selected, now));
        }
        i = i + 1;
    }
    assert(due@.take(i as int) =~= due@);
    closed
}

/// The messages that tell the solvers how the auctions ended: first the commitments, then
/// the orders that nobody won.
pub fn closing_messages(closed: &Vec<ClosedAuction>) -> (messages: Vec<SequencerToSolverMessage>)
    ensures
        messages@ == award_messages(closed@) + no_winner_messages(closed@),
{
    let mut messages: Vec<SequencerToSolverMessage> = Vec::new();
    let mut i: usize = 0;
    while i < closed.len()
        invariant
            i <= closed.len(),
            messages@ == award_messages(closed@.take(i as int)),
        decreases closed.len() - i,
    {
        assert(closed@.take(i + 1).drop_last() =~= closed@.take(i as int));
        match &closed[i].outcome {
            AuctionOutcome::Committed(commitment) => {
                messages.push(SequencerToSolverMessage::CommitmentNotification(commitment.clone()));
            },
            _ => {},
        }
        i = i + 1;
    }
    assert(closed@.take(i as int) =~= closed@);
    let ghost awards = messages@;
    i = 0;
    assert(messages@ =~= awards + no_winner_messages(closed@.take(0)));
    while i < closed.len()
        invariant
            i <= closed.len(),
            messages@ == awards + no_winner_messages(closed@.take(i as int)),
        decreases closed.len() - i,
    {
        assert(closed@.take(i + 1).drop_last() =~= closed@.take(i as int));
        match &closed[i].outcome {
            AuctionOutcome::Expired => {
                messages.push(SequencerToSolverMessage::AuctionClosedNoWinner(closed[i].order_id));
            },
            _ => {},
        }
        assert(messages@ =~= awards + no_winner_messages(closed@.take(i + 1)));
        i = i + 1;
    }
    assert(closed@.take(i as int) =~= closed@);
    messages
}

/// The solvers are told of every commitment and of every order that nobody won, and each
/// of them is logged.
pub proof fn law_every_end_is_announced(closed: Seq<ClosedAuction>, i: int)
    requires
        0 <= i < closed.len(),
    ensures
        match closed[i].outcome {
            AuctionOutcome::Committed(commitment) => {
                &&& award_messages(closed).contains(
                    SequencerToSolverMessage::CommitmentNotification(commitment),
                )
                &&& closing_events(closed).contains(
                    ChainEvent::BidSelected {
                        order_id: closed[i].order_id,
                        solver_id: commitment.solver_id,
                        commitment,
                    },
                )
            },
            AuctionOutcome::Lapsed(_) => true,
            AuctionOutcome::Expired => {
                &&& no_winner_messages(closed).contains(
                    SequencerToSolverMessage::AuctionClosedNoWinner(closed[i].order_id),
                )
                &&& closing_events(closed).contains(ChainEvent::OrderExpired(closed[i].order_id))
            },
        },
    decreases closed.len(),
{
    let rest = closed.drop_last();
    let last = closed.len() - 1;
    let event = closing_event(closed[i]);
    if i < last {
        law_every_end_is_announced(rest, i);
        assert(rest[i] == closed[i]);
        if event.len() > 0 {
            let k = choose|k: int|
                0 <= k < closing_events(rest).len() && closing_events(rest)[k] == event[0];
            assert(closing_events(closed)[k] == event[0]);
        }
        match closed[i].outcome {
            AuctionOutcome::Committed(commitment) => {
                let message = SequencerToSolverMessage::CommitmentNotification(commitment);
                let k = choose|k: int|
                    0 <= k < award_messages(rest).len() && award_messages(rest)[k] == message;
                assert(award_messages(closed)[k] == message);
            },
            AuctionOutcome::Lapsed(_) => {},
            AuctionOutcome::Expired => {
                let message = SequencerToSolverMessage::AuctionClosedNoWinner(closed[i].order_id);
                let k = choose|k: int|
                    0 <= k < no_winner_messages(rest).len() && no_winner_messages(rest)[k]
                        == message;
                assert(no_winner_messages(closed)[k] == message);
            },
        }
    } else {
        if event.len() > 0 {
            assert(closing_events(closed)[closing_events(rest).len() as int] == event[0]);
        }
        match closed[i].outcome {
            AuctionOutcome::Committed(commitment) => {
                assert(award_messages(closed)[award_messages(rest).len() as int]
                    == SequencerToSolverMessage::CommitmentNotification(commitment));
            },
            AuctionOutcome::Lapsed(_) => {},
            AuctionOutcome::Expired => {
                assert(no_winner_messages(closed)[no_winner_messages(rest).len() as int]
                    == SequencerToSolverMessage::AuctionClosedNoWinner(closed[i].order_id));
            },
        }
    }
}

} // verus!
