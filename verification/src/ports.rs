//! What the sequencer does with a message on its bid port or its fulfilment port.
use crate::chain_log::ChainLog;
use crate::clock::current_timestamp_secs;
use crate::escrow::InMemoryEscrow;
use crate::order_state::OrderStateManager;
use crate::types::{ChainEvent, OrderId, SolverToSequencerMessage, Timestamp};
use vstd::prelude::*;

verus! {

/// What became of a message on the bid port.
#[derive(Debug, Clone, Copy, PartialEq, Eq, Structural)]
pub enum BidReceipt {
    /// The bid was kept and logged.
    Accepted,
    /// The bid was for an order that is neither in the auction nor committed.
    UnknownOrder(OrderId),
    /// The message was no bid.
    UnexpectedMessage,
}

/// What became of a message on the fulfilment port.
#[derive(Debug, Clone, Copy, PartialEq, Eq, Structural)]
pub enum ClaimReceipt {
    /// The claim was recorded.
    Recorded,
    /// The message was no claim.
    UnexpectedMessage,
}

/// Handles a message on the bid port.
pub fn receive_bid(
    order_state: &mut OrderStateManager,
    chain_log: &mut ChainLog,
    message: SolverToSequencerMessage,
) -> (receipt: BidReceipt)
    ensures
        old(chain_log)@.is_prefix_of(final(chain_log)@),
        match message {
            SolverToSequencerMessage::SubmitBid(bid) => if old(order_state)@.takes_bids(
                bid.order_id,
            ) {
                &&& receipt == BidReceipt::Accepted
                &&& final(order_state)@ == old(order_state)@.with_bid(bid)
                &&& final(chain_log)@ == old(chain_log)@.push(ChainEvent::BidReceived(bid))
            } else {
                &&& receipt == BidReceipt::UnknownOrder(bid.order_id)
                &&& final(order_state)@ == old(order_state)@
                &&& final(chain_log)@ == old(chain_log)@
            },
            SolverToSequencerMessage::FulfillmentComplete { .. } => {
                &&& receipt == BidReceipt::UnexpectedMessage
                &&& final(order_state)@ == old(order_state)@
                &&& final(chain_log)@ == old(chain_log)@
            },
        },
{
    broadcast use vstd::std_specs::hash::group_hash_axioms;

    match message {
        SolverToSequencerMessage::SubmitBid(bid) => {
            if order_state.active_orders_in_auction.contains_key(&bid.order_id)
                || order_state.active_commitments.contains_key(&bid.order_id) {
                order_state.add_bid(bid.clone());
                chain_log.log_event(ChainEvent::BidReceived(bid));
                BidReceipt::Accepted
            } else {
                BidReceipt::UnknownOrder(bid.order_id)
            }
        },
        SolverToSequencerMessage::FulfillmentComplete { .. } => BidReceipt::UnexpectedMessage,
    }
}

/// Handles a message that came in on the fulfilment port at the time `now`.
pub fn receive_claim_at(
    escrow: &mut InMemoryEscrow,
    message: SolverToSequencerMessage,
    now: Timestamp,
) -> (receipt: ClaimReceipt)
    ensures
        match message {
            SolverToSequencerMessage::FulfillmentComplete { order_id, solver_id } => {
                &&& receipt == ClaimReceipt::Recorded
                &&& final(escrow)@ == old(escrow)@.insert((order_id, solver_id@), now)
            },
            SolverToSequencerMessage::SubmitBid(_) => {
                &&& receipt == ClaimReceipt::UnexpectedMessage
                &&& final(escrow)@ == old(escrow)@
            },
        },
{
    match message {
        SolverToSequencerMessage::FulfillmentComplete { order_id, solver_id } => {
            escrow.record_fulfillment_claim_at(order_id, solver_id, now);
            ClaimReceipt::Recorded
        },
        SolverToSequencerMessage::SubmitBid(_) => ClaimReceipt::UnexpectedMessage,
    }
}

/// Handles a message on the fulfilment port; a claim is recorded at the time that the
/// clock shows.
pub fn receive_claim(
    escrow: &mut InMemoryEscrow,
    message: SolverToSequencerMessage,
) -> (receipt: ClaimReceipt)
    ensures
        match message {
            SolverToSequencerMessage::FulfillmentComplete { order_id, solver_id } => {
                &&& receipt == ClaimReceipt::Recorded
                &&& exists|now: Timestamp|
                    crate::clock::clock_shows(now) && final(escrow)@
                        == #[trigger] old(escrow)@.insert((order_id, solver_id@), now)
            },
            SolverToSequencerMessage::SubmitBid(_) => {
                &&& receipt == ClaimReceipt::UnexpectedMessage
                &&& final(escrow)@ == old(escrow)@
            },
        },
{
    receive_claim_at(escrow, message, current_timestamp_secs())
}

} // verus!
