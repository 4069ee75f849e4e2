//! What a solver does with the sequencer's messages.
use crate::rate::ConversionRate;
use crate::types::{
    Amount, Bid, Commitment, Order, OrderId, SequencerToSolverMessage, SolverId,
    SolverToSequencerMessage, Timestamp,
};
use rand::rngs::SmallRng;
use rand::{Rng, SeedableRng};
use vstd::prelude::*;

verus! {

/// Inputs that a solver bids lie in this range, the upper end excluded.
pub const MAX_INPUT_FROM: Amount = 50;

pub const MAX_INPUT_TO: Amount = 200;

/// Seconds for which a bid is valid lie in this range, the upper end excluded.
pub const BID_DURATION_FROM_SECS: u64 = 15;

pub const BID_DURATION_TO_SECS: u64 = 60;

/// Declares `rand::rngs::SmallRng`, which is opaque but for `generator_words`.
#[verifier::external_type_specification]
#[verifier::external_body]
pub struct ExSmallRng(rand::rngs::SmallRng);

/// The four words that a `rand::rngs::SmallRng` holds: all that it draws from.
pub uninterp spec fn generator_words(rng: SmallRng) -> Seq<u64>;

/// The words of a generator made by `rand::SeedableRng::seed_from_u64` for
/// `rand::rngs::SmallRng`, on a target whose pointers have `pointer_bits` bits. The width
/// chooses the algorithm of the generator, and with it the size of its words.
pub uninterp spec fn seeded_words(pointer_bits: u32, seed: u64) -> Seq<u64>;

/// What `rand::Rng::gen_range` draws from the range from `low` to `high`, the upper end
/// excluded, where the generator holds `words`, on a target whose pointers have
/// `pointer_bits` bits: the number, and the words that the generator then holds.
pub uninterp spec fn drawn(pointer_bits: u32, words: Seq<u64>, low: u64, high: u64) -> (
    u64,
    Seq<u64>,
);

/// Calls `rand::rngs::SmallRng::seed_from_u64`. The words of the new generator depend on
/// the seed and on the pointer width of the target, and on nothing else.
#[verifier::external_body]
fn seeded(seed: u64) -> (rng: SmallRng)
    ensures
        generator_words(rng) == seeded_words(usize::BITS, seed),
{
    SmallRng::seed_from_u64(seed)
}

/// Calls `rand::Rng::gen_range` with the range from `low` to `high`, the upper end
/// excluded: the number drawn lies in it. The number and the words that the generator
/// holds afterwards depend on its words before, on the two ends and on the pointer width
/// of the target, and on nothing else. The call panics on an empty range.
#[verifier::external_body]
fn draw(rng: &mut SmallRng, low: u64, high: u64) -> (number: u64)
    requires
        low < high,
    ensures
        low <= number < high,
        (number, generator_words(*final(rng))) == drawn(
            usize::BITS,
            generator_words(*old(rng)),
            low,
            high,
        ),
{
    rng.gen_range(low..high)
}

/// What a message asks of a solver.
#[derive(Debug)]
pub enum Reaction {
    /// Decide on a bid for each of these orders.
    Consider(Vec<Order>),
    /// Do the work of this commitment.
    Work(Commitment),
    /// Nothing: this commitment is another solver's.
    Ignore(Commitment),
    /// Nothing: the auction of this order had no winner.
    NoWinner(OrderId),
}

/// What the message asks of the solver `solver_id`.
pub fn react(solver_id: &SolverId, message: SequencerToSolverMessage) -> (reaction: Reaction)
    ensures
        reaction == match message {
            SequencerToSolverMessage::NewOrderBatch(batch) => Reaction::Consider(batch),
            SequencerToSolverMessage::CommitmentNotification(commitment) => if commitment.solver_id@
                == solver_id@ {
                Reaction::Work(commitment)
            } else {
                Reaction::Ignore(commitment)
            },
            SequencerToSolverMessage::AuctionClosedNoWinner(id) => Reaction::NoWinner(id),
        },
{
    match message {
        SequencerToSolverMessage::NewOrderBatch(batch) => Reaction::Consider(batch),
        SequencerToSolverMessage::CommitmentNotification(commitment) => {
            if commitment.solver_id == *solver_id {
                Reaction::Work(commitment)
            } else {
                Reaction::Ignore(commitment)
            }
        },
        SequencerToSolverMessage::AuctionClosedNoWinner(id) => Reaction::NoWinner(id),
    }
}

/// The generator from which the bid for the order is drawn. It is seeded with the order's
/// id, so that solvers on targets of one pointer width draw alike for one order.
pub fn bidding_rng(order_id: OrderId) -> (rng: SmallRng)
    ensures
        generator_words(rng) == seeded_words(usize::BITS, order_id),
{
    seeded(order_id)
}

/// Draws the input of a bid.
pub fn draw_max_input(rng: &mut SmallRng) -> (max_input: Amount)
    ensures
        MAX_INPUT_FROM <= max_input < MAX_INPUT_TO,
        (max_input, generator_words(*final(rng))) == drawn(
            usize::BITS,
            generator_words(*old(rng)),
            MAX_INPUT_FROM,
            MAX_INPUT_TO,
        ),
{
    draw(rng, MAX_INPUT_FROM, MAX_INPUT_TO)
}

/// Draws how long a bid is valid, in seconds.
pub fn draw_bid_duration(rng: &mut SmallRng) -> (secs: u64)
    ensures
        BID_DURATION_FROM_SECS <= secs < BID_DURATION_TO_SECS,
        (secs, generator_words(*final(rng))) == drawn(
            usize::BITS,
            generator_words(*old(rng)),
            BID_DURATION_FROM_SECS,
            BID_DURATION_TO_SECS,
        ),
{
    draw(rng, BID_DURATION_FROM_SECS, BID_DURATION_TO_SECS)
}

/// The bid that a solver makes at the time `now`.
pub fn make_bid(
    order_id: OrderId,
    solver_id: &SolverId,
    max_input: Amount,
    conversion_rate: ConversionRate,
    bid_duration_secs: u64,
    now: Timestamp,
) -> (bid: Bid)
    requires
        now + bid_duration_secs <= u64::MAX,
    ensures
        bid == (Bid {
            order_id,
            solver_id: *solver_id,
            max_input,
            conversion_rate,
            valid_till: (now + bid_duration_secs) as Timestamp,
        }),
{
    Bid {
        order_id,
        solver_id: solver_id.clone(),
        max_input,
        conversion_rate,
        valid_till: now + bid_duration_secs,
    }
}

/// Draws how long the work on an order takes that is due at `deadline`, in seconds. At
/// least one second of work must leave a second to spare before the deadline. The draw is
/// the first of a generator that is seeded with the order's id.
pub fn draw_work_duration(order_id: OrderId, deadline: Timestamp, now: Timestamp) -> (secs: u64)
    requires
        now + 3 <= deadline,
    ensures
        1 <= secs < deadline - now - 1,
        secs == drawn(
            usize::BITS,
            seeded_words(usize::BITS, order_id),
            1,
            (deadline - now - 1) as u64,
        ).0,
{
    let mut rng = seeded(order_id);
    draw(&mut rng, 1, deadline - now - 1)
}

/// The claim that a solver sends when its work is done at the time `now`: there is none
/// once the deadline has come.
pub fn claim_after_work(commitment: &Commitment, solver_id: &SolverId, now: Timestamp) -> (claim:
    Option<SolverToSequencerMessage>)
    ensures
        claim == (if now < commitment.deadline {
            Some(
                SolverToSequencerMessage::FulfillmentComplete {
                    order_id: commitment.order_id,
                    solver_id: *solver_id,
                },
            )
        } else {
            None
        }),
{
    if now < commitment.deadline {
        Some(
            SolverToSequencerMessage::FulfillmentComplete {
                order_id: commitment.order_id,
                solver_id: solver_id.clone(),
            },
        )
    } else {
        None
    }
}

} // verus!
