//! The data that sequencer and solvers share.
pub use crate::clock::current_timestamp_secs;
use crate::rate::ConversionRate;
use vstd::prelude::*;

verus! {

pub type OrderId = u64;

pub type SolverId = String;

pub type Amount = u64;

pub type Timestamp = u64;

/// Seconds that a solver has after its deadline before the commitment is settled.
pub const GRACE_PERIOD_SECS: u64 = 2;

/// The longest time between a commitment and its deadline, in seconds.
pub const COMMITMENT_DURATION_SECS: u64 = 10;

/// The most orders in one batch.
pub const ORDER_BATCH_SIZE: usize = 5;

/// Seconds after an order's creation before its best bid is selected.
pub const BID_COLLECTION_PERIOD_SECS: u64 = 5;

pub const DEFAULT_SEQUENCER_HOST: &'static str = "127.0.0.1";

pub const DEFAULT_ORDER_BROADCAST_PORT: u16 = 8080;

pub const DEFAULT_BID_SUBMISSION_PORT: u16 = 8081;

pub const DEFAULT_FULFILLMENT_PORT: u16 = 8082;

/// An order placed on the system.
#[derive(Debug, PartialEq, Eq, Hash)]
pub struct Order {
    pub id: OrderId,
    pub description: String,
    pub creation_time: Timestamp,
}

impl Clone for Order {
    fn clone(&self) -> (copy: Order)
        ensures
            copy == *self,
    {
        Order {
            id: self.id,
            description: self.description.clone(),
            creation_time: self.creation_time,
        }
    }
}

/// A bid made by a solver for an order.
#[derive(Debug, PartialEq)]
pub struct Bid {
    pub order_id: OrderId,
    pub solver_id: SolverId,
    pub max_input: Amount,
    pub conversion_rate: ConversionRate,
    pub valid_till: Timestamp,
}

impl Clone for Bid {
    fn clone(&self) -> (copy: Bid)
        ensures
            copy == *self,
    {
        Bid {
            order_id: self.order_id,
            solver_id: self.solver_id.clone(),
            max_input: self.max_input,
            conversion_rate: self.conversion_rate,
            valid_till: self.valid_till,
        }
    }
}

impl Bid {
    /// The least output that the bid promises.
    pub open spec fn promised_output(self) -> Amount {
        self.conversion_rate.output(self.max_input)
    }

    /// The minimum output, from the maximum input and the conversion rate.
    pub fn min_output(&self) -> (output: Amount)
        ensures
            output == self.promised_output(),
            output == self.conversion_rate.output(self.max_input),
    {
        self.conversion_rate.convert(self.max_input)
    }
}

/// A commitment made by the sequencer to a solver for an order.
#[derive(Debug, PartialEq)]
pub struct Commitment {
    pub order_id: OrderId,
    pub solver_id: SolverId,
    pub input_amount: Amount,
    pub min_output_amount: Amount,
    pub deadline: Timestamp,
}

impl Clone for Commitment {
    fn clone(&self) -> (copy: Commitment)
        ensures
            copy == *self,
    {
        Commitment {
            order_id: self.order_id,
            solver_id: self.solver_id.clone(),
            input_amount: self.input_amount,
            min_output_amount: self.min_output_amount,
            deadline: self.deadline,
        }
    }
}

/// Messages from the sequencer to the solvers.
#[derive(Debug, Clone)]
pub enum SequencerToSolverMessage {
    NewOrderBatch(Vec<Order>),
    CommitmentNotification(Commitment),
    AuctionClosedNoWinner(OrderId),
}

/// Messages from a solver to the sequencer.
#[derive(Debug, Clone)]
pub enum SolverToSequencerMessage {
    SubmitBid(Bid),
    FulfillmentComplete { order_id: OrderId, solver_id: SolverId },
}

/// Events that the sequencer appends to its chain.
#[derive(Debug, Clone)]
pub enum ChainEvent {
    OrderAdded(Order),
    BatchCreated(Vec<OrderId>),
    BidReceived(Bid),
    BidSelected { order_id: OrderId, solver_id: SolverId, commitment: Commitment },
    OrderFulfilled { order_id: OrderId, solver_id: SolverId },
    OrderFailedToFulfill { order_id: OrderId, solver_id: SolverId },
    OrderReassigned {
        order_id: OrderId,
        prev_solver_id: SolverId,
        new_solver_id: SolverId,
        new_commitment: Commitment,
    },
    OrderExpired(OrderId),
}

} // verus!
