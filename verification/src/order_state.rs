//! The orders, bids and commitments that the sequencer keeps.
use crate::clock::take_readings;
use crate::selection::{pick_best, pick_next_best};
use crate::types::{Bid, Commitment, Order, OrderId, SolverId, Timestamp};
use std::collections::{HashMap, VecDeque};
use vstd::prelude::*;

verus! {

broadcast use vstd::std_specs::hash::group_hash_axioms;

/// What an `OrderStateManager` holds.
#[verifier::ext_equal]
pub struct OrderBook {
    /// Orders that wait for a batch, in the order of their arrival.
    pub pending: Seq<Order>,
    /// Orders that were batched and have no commitment yet.
    pub auction: Map<OrderId, Order>,
    /// The bids received for each order, in the order of their arrival.
    pub bids: Map<OrderId, Seq<Bid>>,
    /// The commitment of each order that has one.
    pub commitments: Map<OrderId, Commitment>,
}

/// `auction` after `batch` has entered it; of two orders with one id the later stays.
pub open spec fn entered(auction: Map<OrderId, Order>, batch: Seq<Order>) -> Map<OrderId, Order>
    decreases batch.len(),
{
    if batch.len() == 0 {
        auction
    } else {
        entered(auction, batch.drop_last()).insert(batch.last().id, batch.last())
    }
}

impl OrderBook {
    pub open spec fn empty() -> OrderBook {
        OrderBook {
            pending: Seq::empty(),
            auction: Map::empty(),
            bids: Map::empty(),
            commitments: Map::empty(),
        }
    }

    /// Whether bids for the order are taken.
    pub open spec fn takes_bids(self, order_id: OrderId) -> bool {
        self.auction.contains_key(order_id) || self.commitments.contains_key(order_id)
    }

    /// The bids received for the order.
    pub open spec fn bids_for(self, order_id: OrderId) -> Seq<Bid> {
        if self.bids.contains_key(order_id) {
            self.bids[order_id]
        } else {
            Seq::empty()
        }
    }

    /// Whether both books hold the same of the order: its place in the auction, its bids and
    /// its commitment.
    pub open spec fn same_order(self, other: OrderBook, order_id: OrderId) -> bool {
        &&& self.auction.contains_key(order_id) == other.auction.contains_key(order_id)
        &&& self.auction.contains_key(order_id) ==> self.auction[order_id]
            == other.auction[order_id]
        &&& self.bids.contains_key(order_id) == other.bids.contains_key(order_id)
        &&& self.bids_for(order_id) == other.bids_for(order_id)
        &&& self.commitments.contains_key(order_id) == other.commitments.contains_key(order_id)
        &&& self.commitments.contains_key(order_id) ==> self.commitments[order_id]
            == other.commitments[order_id]
    }

    /// Whether `winner` is the best bid for the order at some readings of the clock, one
    /// for each bid. A reading is a time that the clock shows.
    pub open spec fn may_select(self, order_id: OrderId, winner: Option<Bid>) -> bool {
        exists|readings: Seq<Timestamp>|
            readings.len() == self.bids_for(order_id).len() && crate::clock::clock_showed(readings)
                && #[trigger] crate::selection::is_best(self.bids_for(order_id), readings, winner)
    }

    /// Whether `winner` is the next best bid for the order, after the solver `failed`, at
    /// some readings of the clock, one for each bid.
    pub open spec fn may_replace_with(
        self,
        order_id: OrderId,
        failed: Seq<char>,
        winner: Option<Bid>,
    ) -> bool {
        exists|readings: Seq<Timestamp>|
            readings.len() == self.bids_for(order_id).len() && crate::clock::clock_showed(readings)
                && #[trigger] crate::selection::is_next_best(
                self.bids_for(order_id),
                readings,
                failed,
                winner,
            )
    }

    /// The book after the order has arrived.
    pub open spec fn with_order(self, order: Order) -> OrderBook {
        OrderBook { pending: self.pending.push(order), ..self }
    }

    /// How many orders a batch of at most `max_batch_size` takes.
    pub open spec fn batch_size(self, max_batch_size: nat) -> nat {
        if self.pending.len() <= max_batch_size {
            self.pending.len()
        } else {
            max_batch_size
        }
    }

    /// The oldest pending orders, at most `max_batch_size` of them.
    pub open spec fn batch(self, max_batch_size: nat) -> Seq<Order> {
        self.pending.take(self.batch_size(max_batch_size) as int)
    }

    /// The book after that batch has entered the auction.
    pub open spec fn after_batch(self, max_batch_size: nat) -> OrderBook {
        OrderBook {
            pending: self.pending.skip(self.batch_size(max_batch_size) as int),
            auction: entered(self.auction, self.batch(max_batch_size)),
            ..self
        }
    }

    /// The book after the bid has arrived: a bid for an order that takes none is dropped.
    pub open spec fn with_bid(self, bid: Bid) -> OrderBook {
        if self.takes_bids(bid.order_id) {
            OrderBook {
                bids: self.bids.insert(bid.order_id, self.bids_for(bid.order_id).push(bid)),
                ..self
            }
        } else {
            self
        }
    }
}

/// The state of orders, bids and commitments.
#[derive(Debug, Clone)]
pub struct OrderStateManager {
    pub pending_orders: VecDeque<Order>,
    pub active_orders_in_auction: HashMap<OrderId, Order>,
    pub received_bids: HashMap<OrderId, Vec<Bid>>,
    pub active_commitments: HashMap<OrderId, Commitment>,
}

impl View for OrderStateManager {
    type V = OrderBook;

    open spec fn view(&self) -> OrderBook {
        OrderBook {
            pending: self.pending_orders@,
            auction: self.active_orders_in_auction@,
            bids: self.received_bids@.map_values(|bids: Vec<Bid>| bids@),
            commitments: self.active_commitments@,
        }
    }
}

impl Default for OrderStateManager {
    fn default() -> (manager: OrderStateManager)
        ensures
            manager@ == OrderBook::empty(),
    {
        OrderStateManager::new()
    }
}

impl OrderStateManager {
    pub fn new() -> (manager: OrderStateManager)
        ensures
            manager@ == OrderBook::empty(),
    {
        let manager = OrderStateManager {
            pending_orders: VecDeque::new(),
            active_orders_in_auction: HashMap::new(),
            received_bids: HashMap::new(),
            active_commitments: HashMap::new(),
        };
        assert(manager@ =~= OrderBook::empty());
        manager
    }

    /// Puts the order behind the pending ones.
    pub fn add_order(&mut self, order: Order)
        ensures
            final(self)@ == old(self)@.with_order(order),
    {
        self.pending_orders.push_back(order);
    }

    /// Moves the oldest pending orders, at most `max_batch_size`, into the auction.
    pub fn create_order_batch(&mut self, max_batch_size: usize) -> (batch: Vec<Order>)
        ensures
            batch@ == old(self)@.batch(max_batch_size as nat),
            final(self)@ == old(self)@.after_batch(max_batch_size as nat),
    {
        let mut batch: Vec<Order> = Vec::new();
        let ghost before = self@;
        while batch.len() < max_batch_size && self.pending_orders.len() > 0
            invariant
                batch.len() <= max_batch_size,
                before.pending =~= batch@ + self@.pending,
                self@.auction == entered(before.auction, batch@),
                self@.bids == before.bids,
                self@.commitments == before.commitments,
            decreases self.pending_orders.len(),
        {
            if let Some(order) = self.pending_orders.pop_front() {
                let ghost taken = batch@;
                self.active_orders_in_auction.insert(order.id, order.clone());
                batch.push(order);
                assert(batch@.drop_last() =~= taken);
            }
        }
        assert(batch@ =~= before.batch(max_batch_size as nat));
        assert(self@ =~= before.after_batch(max_batch_size as nat));
        batch
    }

    /// Keeps the bid if its order is in the auction or committed: the bids of a committed
    /// order count if it has to be reassigned.
    pub fn add_bid(&mut self, bid: Bid)
        ensures
            final(self)@ == old(self)@.with_bid(bid),
    {
        if self.active_orders_in_auction.contains_key(&bid.order_id)
            || self.active_commitments.contains_key(&bid.order_id) {
            let order_id: OrderId = bid.order_id;
            let mut bids: Vec<Bid> = match self.received_bids.remove(&order_id) {
                Some(bids) => bids,
                None => Vec::new(),
            };
            assert(bids@ =~= old(self)@.bids_for(order_id));
            bids.push(bid);
            self.received_bids.insert(order_id, bids);
            assert(self@.bids =~= old(self)@.with_bid(bid).bids);
        }
    }

    /// The best valid bid for the order. The clock is read for each bid; whatever it
    /// showed, the result is the selection at those readings.
    pub fn select_best_bid(&self, order_id: &OrderId) -> (winner: Option<Bid>)
        ensures
            self@.may_select(*order_id, winner),
    {
        let none: Vec<Bid> = Vec::new();
        let bids = match self.received_bids.get(order_id) {
            Some(bids) => bids,
            None => &none,
        };
        assert(bids@ =~= self@.bids_for(*order_id));
        let readings = take_readings(bids.len());
        pick_best(bids, &readings)
    }

    /// The best valid bid for the order that another solver than `failed_solver_id` made.
    /// The clock is read for each bid; whatever it showed, the result is the selection at
    /// those readings.
    pub fn get_next_best_bid(
        &self,
        order_id: &OrderId,
        failed_solver_id: &SolverId,
    ) -> (winner: Option<Bid>)
        ensures
            self@.may_replace_with(*order_id, failed_solver_id@, winner),
    {
        let none: Vec<Bid> = Vec::new();
        let bids = match self.received_bids.get(order_id) {
            Some(bids) => bids,
            None => &none,
        };
        assert(bids@ =~= self@.bids_for(*order_id));
        let readings = take_readings(bids.len());
        pick_next_best(bids, &readings, failed_solver_id)
    }
}

/// The orders that `map` has an entry for, in the order in which the map is walked.
pub(crate) fn order_ids<V>(map: &HashMap<OrderId, V>) -> (ids: Vec<OrderId>)
    ensures
        ids@.no_duplicates(),
        forall|id: OrderId| #[trigger] ids@.contains(id) <==> map@.contains_key(id),
{
    let mut ids: Vec<OrderId> = Vec::new();
    let keys = map.keys();
    let ghost walked = vstd::std_specs::iter::IteratorSpec::remaining(&keys).unref();
    for id in walk: keys
        invariant
            ids@ == walked.take(walk.index() as int),
            walk.seq().unref() == walked,
            walked.to_set() == map@.dom(),
            walk.seq().no_duplicates(),
    {
        ids.push(*id);
    }
    assert(ids@ =~= walked);
    assert forall|id: OrderId| #[trigger] ids@.contains(id) implies map@.contains_key(id) by {
        assert(walked.to_set().contains(id));
    }
    assert forall|id: OrderId| map@.contains_key(id) implies #[trigger] ids@.contains(id) by {
        assert(walked.to_set().contains(id));
    }
    ids
}

/// What a sequence contains after one more element was added.
pub(crate) proof fn lemma_push_contains(s: Seq<OrderId>, added: OrderId, id: OrderId)
    ensures
        s.push(added).contains(id) <==> s.contains(id) || id == added,
{
    if s.contains(id) {
        let i = choose|i: int| 0 <= i < s.len() && s[i] == id;
        assert(s.push(added)[i] == id);
    }
    assert(s.push(added)[s.len() as int] == added);
}

} // verus!
