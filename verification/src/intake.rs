//! The first phase of a round: orders arrive and are batched for bidding.
use crate::chain_log::ChainLog;
use crate::order_state::OrderStateManager;
use crate::types::{
    ChainEvent, Order, OrderId, SequencerToSolverMessage, Timestamp, ORDER_BATCH_SIZE,
};
use vstd::prelude::*;

verus! {

/// The decimal digit `d`.
pub open spec fn digit(d: nat) -> char {
    (48 + d) as char
}

/// `n` in decimal, without leading zeros.
pub open spec fn decimal(n: nat) -> Seq<char>
    decreases n,
{
    if n < 10 {
        seq![digit(n)]
    } else {
        decimal(n / 10).push(digit(n % 10))
    }
}

/// The description of the order with the id `id`.
pub open spec fn sample_description(id: OrderId) -> Seq<char> {
    "Sample Order #"@ + decimal(id as nat)
}

fn digit_str(d: u64) -> (s: &'static str)
    requires
        d < 10,
    ensures
        s@ == seq![digit(d as nat)],
{
    proof {
        reveal_strlit("0");
        reveal_strlit("1");
        reveal_strlit("2");
        reveal_strlit("3");
        reveal_strlit("4");
        reveal_strlit("5");
        reveal_strlit("6");
        reveal_strlit("7");
        reveal_strlit("8");
        reveal_strlit("9");
    }
    match d {
        0 => "0",
        1 => "1",
        2 => "2",
        3 => "3",
        4 => "4",
        5 => "5",
        6 => "6",
        7 => "7",
        8 => "8",
        _ => "9",
    }
}

fn append_decimal(text: String, n: u64) -> (r: String)
    ensures
        r@ == text@ + decimal(n as nat),
    decreases n,
{
    if n < 10 {
        text.concat(digit_str(n))
    } else {
        let r = append_decimal(text, n / 10).concat(digit_str(n % 10));
        assert(r@ =~= text@ + decimal(n as nat));
        r
    }
}

/// Where the sequencer's orders come from: one on every other tick, numbered in turn.
#[derive(Debug, Clone)]
pub struct OrderSource {
    pub next_order_id: OrderId,
    pub tick: i32,
}

impl Default for OrderSource {
    fn default() -> (source: OrderSource)
        ensures
            source.next_order_id == 1,
            source.tick == 100,
    {
        OrderSource::new()
    }
}

impl OrderSource {
    pub fn new() -> (source: OrderSource)
        ensures
            source.next_order_id == 1,
            source.tick == 100,
    {
        OrderSource { next_order_id: 1, tick: 100 }
    }

    /// The order that arrives on this tick, if one does. Ids start again at zero after the
    /// largest one.
    pub fn next_order(&mut self, now: Timestamp) -> (arrived: Option<Order>)
        requires
            old(self).tick < i32::MAX,
        ensures
            final(self).tick == old(self).tick + 1,
            old(self).tick % 2 == 0 ==> {
                &&& arrived matches Some(order)
                &&& order.id == old(self).next_order_id
                &&& order.description@ == sample_description(order.id)
                &&& order.creation_time == now
                &&& final(self).next_order_id == (if old(self).next_order_id == u64::MAX {
                    0
                } else {
                    old(self).next_order_id + 1
                })
            },
            old(self).tick % 2 != 0 ==> arrived is None && final(self).next_order_id == old(
                self,
            ).next_order_id,
    {
        let arrives = self.tick % 2 == 0;
        self.tick = self.tick + 1;
        if arrives {
            let id: OrderId = self.next_order_id;
            self.next_order_id = self.next_order_id.wrapping_add(1);
            let description = append_decimal("Sample Order #".to_string(), id);
            Some(Order { id, description, creation_time: now })
        } else {
            None
        }
    }
}

/// The ids of the orders.
fn ids_of(orders: &Vec<Order>) -> (ids: Vec<OrderId>)
    ensures
        ids@ == orders@.map_values(|order: Order| order.id),
{
    let mut ids: Vec<OrderId> = Vec::new();
    let mut i: usize = 0;
    while i < orders.len()
        invariant
            i <= orders.len(),
            ids@ =~= orders@.take(i as int).map_values(|order: Order| order.id),
        decreases orders.len() - i,
    {
        ids.push(orders[i].id);
        i = i + 1;
    }
    assert(orders@.take(i as int) =~= orders@);
    ids
}

/// Takes in the order that arrived, if one did, and opens the auction for the next batch.
/// The message announces the batch; there is none where no order was pending.
pub fn open_auctions(
    order_state: &mut OrderStateManager,
    chain_log: &mut ChainLog,
    arrived: Option<Order>,
) -> (announcement: Option<SequencerToSolverMessage>)
    ensures
        old(chain_log)@.is_prefix_of(final(chain_log)@),
        ({
            let (book, log) = match arrived {
                Some(order) => (
                    old(order_state)@.with_order(order),
                    old(chain_log)@.push(ChainEvent::OrderAdded(order)),
                ),
                None => (old(order_state)@, old(chain_log)@),
            };
            let batch = book.batch(ORDER_BATCH_SIZE as nat);
            &&& final(order_state)@ == book.after_batch(ORDER_BATCH_SIZE as nat)
            &&& batch.len() == 0 ==> announcement is None && final(chain_log)@ == log
            &&& batch.len() > 0 ==> {
                &&& announcement matches Some(SequencerToSolverMessage::NewOrderBatch(orders))
                &&& orders@ == batch
                &&& final(chain_log)@.len() == log.len() + 1
                &&& final(chain_log)@.drop_last() == log
                &&& final(chain_log)@.last() matches ChainEvent::BatchCreated(ids)
                &&& ids@ == batch.map_values(|order: Order| order.id)
            }
        }),
{
    if let Some(order) = arrived {
        order_state.add_order(order.clone());
        chain_log.log_event(ChainEvent::OrderAdded(order));
    }
    let batch = order_state.create_order_batch(ORDER_BATCH_SIZE);
    if batch.len() > 0 {
        let ghost log = chain_log@;
        chain_log.log_event(ChainEvent::BatchCreated(ids_of(&batch)));
        assert(chain_log@.drop_last() =~= log);
        Some(SequencerToSolverMessage::NewOrderBatch(batch))
    } else {
        None
    }
}

/// The number that a row of decimal digits stands for.
pub open spec fn numeral_value(digits: Seq<char>) -> int
    decreases digits.len(),
{
    if digits.len() == 0 {
        0
    } else {
        10 * numeral_value(digits.drop_last()) + (digits.last() as int - '0' as int)
    }
}

/// A number in decimal is made of digits, reads back as the number, and begins with a zero
/// only where it is zero.
pub proof fn law_decimal_reads_back(n: nat)
    ensures
        decimal(n).len() > 0,
        forall|i: int| 0 <= i < decimal(n).len() ==> '0' <= #[trigger] decimal(n)[i] <= '9',
        numeral_value(decimal(n)) == n,
        decimal(n)[0] == '0' ==> n == 0 && decimal(n).len() == 1,
    decreases n,
{
    reveal_with_fuel(numeral_value, 2);
    if n >= 10 {
        law_decimal_reads_back(n / 10);
        let shorter = decimal(n / 10);
        assert(decimal(n).drop_last() =~= shorter);
        assert(decimal(n)[0] == shorter[0]);
        assert forall|i: int| 0 <= i < decimal(n).len() implies '0' <= #[trigger] decimal(n)[i]
            <= '9' by {
            if i < shorter.len() {
                assert(decimal(n)[i] == shorter[i]);
            }
        }
    } else {
        assert(decimal(n).drop_last() =~= Seq::<char>::empty());
    }
}

/// The description of an order tells its id: the text after the number sign is the id in
/// decimal. No two orders are described alike.
pub proof fn law_description_tells_the_id(id: OrderId, other: OrderId)
    ensures
        ({
            let head = "Sample Order #"@;
            let text = sample_description(id);
            let digits = text.skip(head.len() as int);
            &&& text.len() > head.len()
            &&& text.take(head.len() as int) == head
            &&& forall|i: int| 0 <= i < digits.len() ==> '0' <= #[trigger] digits[i] <= '9'
            &&& digits[0] == '0' ==> digits.len() == 1
            &&& numeral_value(digits) == id
        }),
        sample_description(id) == sample_description(other) ==> id == other,
{
    let head = "Sample Order #"@;
    law_decimal_reads_back(id as nat);
    law_decimal_reads_back(other as nat);
    assert(sample_description(id).take(head.len() as int) =~= head);
    assert(sample_description(id).skip(head.len() as int) =~= decimal(id as nat));
    assert(sample_description(other).skip(head.len() as int) =~= decimal(other as nat));
}

/// Writing one more digit behind a number makes it ten times as large, plus the digit.
pub proof fn law_decimal_grows_by_digits(n: nat, d: nat)
    requires
        d < 10,
    ensures
        decimal(10 * n + d) == (if n == 0 {
            seq![('0' as int + d) as char]
        } else {
            decimal(n).push(('0' as int + d) as char)
        }),
{
}

} // verus!
