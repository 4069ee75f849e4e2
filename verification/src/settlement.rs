//! The third phase of a round: the commitments whose time is up are settled. The order is
//! filled, or it goes to the next best bidder, or it is given up.
use crate::auction::commit;
use crate::chain_log::ChainLog;
use crate::escrow::InMemoryEscrow;
use crate::order_state::{order_ids, OrderBook, OrderStateManager};
use crate::types::{
    Bid, ChainEvent, Commitment, OrderId, SequencerToSolverMessage, SolverId, Timestamp,
    GRACE_PERIOD_SECS,
};
use vstd::prelude::*;

verus! {

broadcast use vstd::std_specs::hash::group_hash_axioms;

/// What became of an order when its commitment was settled.
#[derive(Debug)]
pub enum SettlementOutcome {
    /// The solver claimed fulfilment by the deadline.
    Fulfilled,
    /// It did not, and the next best bid became this commitment.
    Reassigned(Commitment),
    /// It did not, and this was the next best bid, but its validity ended before the round
    /// began: the order is given up.
    Lapsed(Bid),
    /// It did not, and no other bid was valid: the order is given up.
    Abandoned,
}

/// The settlement of one commitment.
#[derive(Debug)]
pub struct Settlement {
    pub order_id: OrderId,
    /// The solver that held the commitment.
    pub solver_id: SolverId,
    pub outcome: SettlementOutcome,
}

/// Whether a solver delivered, as the escrow shows it.
#[derive(Debug)]
struct Verdict {
    order_id: OrderId,
    solver_id: SolverId,
    fulfilled: bool,
}

impl Commitment {
    /// Whether deadline and grace period have passed at the time `now`.
    pub open spec fn overdue(self, now: Timestamp) -> bool {
        now > self.deadline + GRACE_PERIOD_SECS
    }
}

/// Whether the claims show that the solver fulfilled the order by the deadline.
pub open spec fn fulfilled_by(
    claims: Map<(OrderId, Seq<char>), Timestamp>,
    order_id: OrderId,
    solver_id: Seq<char>,
    deadline: Timestamp,
) -> bool {
    claims.contains_key((order_id, solver_id)) && claims[(order_id, solver_id)] <= deadline
}

/// What becomes of an order at the time `now` after its solver failed, with `winner`
/// selected as the next best.
pub open spec fn reassignment(
    order_id: OrderId,
    winner: Option<Bid>,
    now: Timestamp,
) -> SettlementOutcome {
    match winner {
        Some(bid) => if bid.valid_at(now) {
            SettlementOutcome::Reassigned(crate::auction::commitment_to(order_id, bid, now))
        } else {
            SettlementOutcome::Lapsed(bid)
        },
        None => SettlementOutcome::Abandoned,
    }
}

impl OrderBook {
    /// Whether the order's commitment is to be settled at the time `now`.
    pub open spec fn settles(self, order_id: OrderId, now: Timestamp) -> bool {
        self.commitments.contains_key(order_id) && self.commitments[order_id].overdue(now)
    }

    /// The book after one commitment was settled.
    pub open spec fn after_settlement(self, settled: Settlement) -> OrderBook {
        match settled.outcome {
            SettlementOutcome::Reassigned(commitment) => OrderBook {
                commitments: self.commitments.insert(settled.order_id, commitment),
                ..self
            },
            _ => OrderBook {
                bids: self.bids.remove(settled.order_id),
                commitments: self.commitments.remove(settled.order_id),
                ..self
            },
        }
    }

    /// The book after the commitments were settled one after the other.
    pub open spec fn after_settlements(self, settled: Seq<Settlement>) -> OrderBook
        decreases settled.len(),
    {
        if settled.len() == 0 {
            self
        } else {
            self.after_settlements(settled.drop_last()).after_settlement(settled.last())
        }
    }
}

/// What is logged of the verdict on a solver.
pub open spec fn verdict_event(
    order_id: OrderId,
    solver_id: SolverId,
    fulfilled: bool,
) -> ChainEvent {
    if fulfilled {
        ChainEvent::OrderFulfilled { order_id, solver_id }
    } else {
        ChainEvent::OrderFailedToFulfill { order_id, solver_id }
    }
}

/// The verdicts of the settlements, in their order.
pub open spec fn verdict_events(settled: Seq<Settlement>) -> Seq<ChainEvent> {
    settled.map_values(
        |s: Settlement|
            verdict_event(s.order_id, s.solver_id, s.outcome is Fulfilled),
    )
}

/// What is logged of an order whose solver failed.
pub open spec fn follow_up_event(settled: Settlement) -> Seq<ChainEvent> {
    match settled.outcome {
        SettlementOutcome::Fulfilled => seq![],
        SettlementOutcome::Reassigned(commitment) => seq![
            ChainEvent::OrderReassigned {
                order_id: settled.order_id,
                prev_solver_id: settled.solver_id,
                new_solver_id: commitment.solver_id,
                new_commitment: commitment,
            },
        ],
        _ => seq![ChainEvent::OrderExpired(settled.order_id)],
    }
}

pub open spec fn follow_up_events(settled: Seq<Settlement>) -> Seq<ChainEvent>
    decreases settled.len(),
{
    if settled.len() == 0 {
        seq![]
    } else {
        follow_up_events(settled.drop_last()) + follow_up_event(settled.last())
    }
}

/// The claims that the settlements leave: each takes its solver's claim on its order.
pub open spec fn claims_left(
    claims: Map<(OrderId, Seq<char>), Timestamp>,
    settled: Seq<Settlement>,
) -> Map<(OrderId, Seq<char>), Timestamp> {
    claims.remove_keys(
        settled.map_values(|s: Settlement| (s.order_id, s.solver_id@)).to_set(),
    )
}

/// The orders of the settlements.
pub open spec fn settled_ids(settled: Seq<Settlement>) -> Seq<OrderId> {
    settled.map_values(|s: Settlement| s.order_id)
}

/// Notifications of the reassignments, in the order of the settlements.
pub open spec fn reassignment_messages(settled: Seq<Settlement>) -> Seq<SequencerToSolverMessage>
    decreases settled.len(),
{
    if settled.len() == 0 {
        seq![]
    } else {
        match settled.last().outcome {
            SettlementOutcome::Reassigned(commitment) => reassignment_messages(
                settled.drop_last(),
            ).push(SequencerToSolverMessage::CommitmentNotification(commitment)),
            _ => reassignment_messages(settled.drop_last()),
        }
    }
}

/// Notifications of the orders that were given up, in the order of the settlements.
pub open spec fn given_up_messages(settled: Seq<Settlement>) -> Seq<SequencerToSolverMessage>
    decreases settled.len(),
{
    if settled.len() == 0 {
        seq![]
    } else {
        match settled.last().outcome {
            SettlementOutcome::Fulfilled => given_up_messages(settled.drop_last()),
            SettlementOutcome::Reassigned(_) => given_up_messages(settled.drop_last()),
            _ => given_up_messages(settled.drop_last()).push(
                SequencerToSolverMessage::AuctionClosedNoWinner(settled.last().order_id),
            ),
        }
    }
}

/// The orders whose commitments are to be settled at the time `now`, in the order in which
/// the commitments are walked.
pub fn overdue_orders(order_state: &OrderStateManager, now: Timestamp) -> (overdue: Vec<OrderId>)
    ensures
        overdue@.no_duplicates(),
        forall|id: OrderId| #[trigger] overdue@.contains(id) <==> order_state@.settles(id, now),
{
    let ids = order_ids(&order_state.active_commitments);
    let mut overdue: Vec<OrderId> = Vec::new();
    let mut i: usize = 0;
    while i < ids.len()
        invariant
            i <= ids.len(),
            ids@.no_duplicates(),
            forall|id: OrderId| #[trigger]
                ids@.contains(id) <==> order_state@.commitments.contains_key(id),
            overdue@.no_duplicates(),
            forall|id: OrderId| #[trigger]
                overdue@.contains(id) <==> ids@.take(i as int).contains(id) && order_state@.settles(
                    id,
                    now,
                ),
        decreases ids.len() - i,
    {
        let id: OrderId = ids[i];
        assert(ids@.contains(id));
        let ghost seen = ids@.take(i as int);
        let ghost before = overdue@;
        assert(!seen.contains(id) && !before.contains(id));
        assert(ids@.take(i + 1) =~= seen.push(id));
        if let Some(commitment) = order_state.active_commitments.get(&id) {
            if now > GRACE_PERIOD_SECS && commitment.deadline < now - GRACE_PERIOD_SECS {
                overdue.push(id);
            }
        }
        proof {
            assert forall|other: OrderId| #[trigger] overdue@.contains(other) <==> ids@.take(
                i + 1,
            ).contains(other) && order_state@.settles(other, now) by {
                crate::order_state::lemma_push_contains(seen, id, other);
                crate::order_state::lemma_push_contains(before, id, other);
            }
        }
        i = i + 1;
    }
    assert(ids@.take(i as int) =~= ids@);
    overdue
}

/// Decides what becomes of an order at the time `now` after its solver failed, with
/// `winner` selected as the next best.
pub fn reassign(
    order_state: &mut OrderStateManager,
    chain_log: &mut ChainLog,
    order_id: OrderId,
    failed_solver_id: SolverId,
    winner: Option<Bid>,
    now: Timestamp,
) -> (settled: Settlement)
    ensures
        settled.order_id == order_id,
        settled.solver_id == failed_solver_id,
        settled.outcome == reassignment(order_id, winner, now),
        final(order_state)@ == old(order_state)@.after_settlement(settled),
        final(chain_log)@ == old(chain_log)@ + follow_up_event(settled),
{
    order_state.active_commitments.remove(&order_id);
    let outcome = match winner {
        Some(bid) => if bid.valid_till >= now {
            let commitment = commit(order_id, &bid, now);
            order_state.active_commitments.insert(order_id, commitment.clone());
            chain_log.log_event(
                ChainEvent::OrderReassigned {
                    order_id,
                    prev_solver_id: failed_solver_id.clone(),
                    new_solver_id: commitment.solver_id.clone(),
                    new_commitment: commitment.clone(),
                },
            );
            SettlementOutcome::Reassigned(commitment)
        } else {
            chain_log.log_event(ChainEvent::OrderExpired(order_id));
            order_state.received_bids.remove(&order_id);
            SettlementOutcome::Lapsed(bid)
        },
        None => {
            chain_log.log_event(ChainEvent::OrderExpired(order_id));
            order_state.received_bids.remove(&order_id);
            SettlementOutcome::Abandoned
        },
    };
    let settled = Settlement { order_id, solver_id: failed_solver_id, outcome };
    assert(order_state@ =~= old(order_state)@.after_settlement(settled));
    assert(chain_log@ =~= old(chain_log)@ + follow_up_event(settled));
    settled
}

/// Removes a fulfilled order from the books.
fn fill(order_state: &mut OrderStateManager, order_id: OrderId, solver_id: SolverId) -> (settled:
    Settlement)
    ensures
        settled.order_id == order_id,
        settled.solver_id == solver_id,
        settled.outcome is Fulfilled,
        final(order_state)@ == old(order_state)@.after_settlement(settled),
{
    order_state.active_commitments.remove(&order_id);
    order_state.received_bids.remove(&order_id);
    let settled = Settlement { order_id, solver_id, outcome: SettlementOutcome::Fulfilled };
    assert(order_state@ =~= old(order_state)@.after_settlement(settled));
    settled
}

spec fn verdict_ids(verdicts: Seq<Verdict>) -> Seq<OrderId> {
    verdicts.map_values(|v: Verdict| v.order_id)
}

spec fn verdict_keys(verdicts: Seq<Verdict>) -> Seq<(OrderId, Seq<char>)> {
    verdicts.map_values(|v: Verdict| (v.order_id, v.solver_id@))
}

spec fn logged_verdicts(verdicts: Seq<Verdict>) -> Seq<ChainEvent> {
    verdicts.map_values(|v: Verdict| verdict_event(v.order_id, v.solver_id, v.fulfilled))
}

/// Whether the verdict is the one that the book and the claims give.
spec fn just(
    verdict: Verdict,
    book: OrderBook,
    claims: Map<(OrderId, Seq<char>), Timestamp>,
) -> bool {
    let commitment = book.commitments[verdict.order_id];
    &&& verdict.solver_id == commitment.solver_id
    &&& verdict.fulfilled == fulfilled_by(
        claims,
        verdict.order_id,
        commitment.solver_id@,
        commitment.deadline,
    )
}

/// Taking one more key away is taking away the larger set of keys.
proof fn lemma_one_more_key(
    claims: Map<(OrderId, Seq<char>), Timestamp>,
    keys: Seq<(OrderId, Seq<char>)>,
    key: (OrderId, Seq<char>),
)
    ensures
        claims.remove_keys(keys.to_set()).remove(key) == claims.remove_keys(
            keys.push(key).to_set(),
        ),
{
    assert forall|k: (OrderId, Seq<char>)| #[trigger] keys.push(key).to_set().contains(k) <==> (
    keys.to_set().contains(k) || k == key) by {
        if keys.contains(k) {
            let i = choose|i: int| 0 <= i < keys.len() && keys[i] == k;
            assert(keys.push(key)[i] == k);
        }
        assert(keys.push(key)[keys.len() as int] == key);
    }
    assert(claims.remove_keys(keys.to_set()).remove(key) =~= claims.remove_keys(
        keys.push(key).to_set(),
    ));
}

/// Judges every commitment that is overdue at the time `now` by the claims in the escrow,
/// which are used up.
fn judge_commitments(
    order_state: &OrderStateManager,
    chain_log: &mut ChainLog,
    escrow: &mut InMemoryEscrow,
    now: Timestamp,
) -> (verdicts: Vec<Verdict>)
    ensures
        verdict_ids(verdicts@).no_duplicates(),
        forall|id: OrderId| #[trigger]
            verdict_ids(verdicts@).contains(id) <==> order_state@.settles(id, now),
        forall|i: int|
            0 <= i < verdicts.len() ==> just(#[trigger] verdicts[i], order_state@, old(escrow)@),
        final(chain_log)@ == old(chain_log)@ + logged_verdicts(verdicts@),
        final(escrow)@ == old(escrow)@.remove_keys(verdict_keys(verdicts@).to_set()),
{
    let ghost claims = escrow@;
    let ghost log = chain_log@;
    let overdue = overdue_orders(order_state, now);
    let mut verdicts: Vec<Verdict> = Vec::new();
    let mut i: usize = 0;
    assert(chain_log@ =~= log + logged_verdicts(verdicts@));
    assert(escrow@ =~= claims.remove_keys(verdict_keys(verdicts@).to_set()));
    while i < overdue.len()
        invariant
            i <= overdue.len(),
            overdue@.no_duplicates(),
            forall|id: OrderId| #[trigger]
                overdue@.contains(id) <==> order_state@.settles(id, now),
            verdicts.len() == i,
            verdict_ids(verdicts@) =~= overdue@.take(i as int),
            forall|j: int|
                0 <= j < verdicts.len() ==> just(#[trigger] verdicts[j], order_state@, claims),
            chain_log@ == log + logged_verdicts(verdicts@),
            escrow@ == claims.remove_keys(verdict_keys(verdicts@).to_set()),
        decreases overdue.len() - i,
    {
        let order_id: OrderId = overdue[i];
        assert(overdue@.contains(order_id));
        let ghost before = verdicts@;
        if let Some(commitment) = order_state.active_commitments.get(&order_id) {
            let ghost key = (order_id, commitment.solver_id@);
            proof {
                assert forall|j: int| 0 <= j < before.len() implies verdict_keys(before)[j]
                    != key by {
                    assert(verdict_ids(before)[j] == overdue[j]);
                }
                assert(!verdict_keys(before).to_set().contains(key));
                lemma_one_more_key(claims, verdict_keys(before), key);
            }
            let fulfilled = escrow.check_fulfillment(
                order_id,
                &commitment.solver_id,
                commitment.deadline,
            );
            let solver_id = commitment.solver_id.clone();
            if fulfilled {
                chain_log.log_event(
                    ChainEvent::OrderFulfilled { order_id, solver_id: solver_id.clone() },
                );
            } else {
                chain_log.log_event(
                    ChainEvent::OrderFailedToFulfill { order_id, solver_id: solver_id.clone() },
                );
            }
            escrow.clear_claim(order_id, &commitment.solver_id);
            verdicts.push(Verdict { order_id, solver_id, fulfilled });
            proof {
                assert(verdict_ids(verdicts@) =~= verdict_ids(before).push(order_id));
                assert(overdue@.take(i + 1) =~= overdue@.take(i as int).push(order_id));
                assert(verdict_keys(verdicts@) =~= verdict_keys(before).push(key));
                assert(chain_log@ =~= log + logged_verdicts(verdicts@));
            }
        }
        i = i + 1;
    }
    assert(overdue@.take(i as int) =~= overdue@);
    verdicts
}

/// Whether the commitment was settled as the book and the claims have it, with the next
/// best bid, where one was needed, selected at some readings of the clock.
pub open spec fn rightly_settled(
    settled: Settlement,
    book: OrderBook,
    claims: Map<(OrderId, Seq<char>), Timestamp>,
    now: Timestamp,
) -> bool {
    let commitment = book.commitments[settled.order_id];
    &&& settled.solver_id == commitment.solver_id
    &&& if fulfilled_by(
        claims,
        settled.order_id,
        commitment.solver_id@,
        commitment.deadline,
    ) {
        settled.outcome is Fulfilled
    } else {
        exists|winner: Option<Bid>|
            book.may_replace_with(settled.order_id, commitment.solver_id@, winner)
                && settled.outcome == #[trigger] reassignment(settled.order_id, winner, now)
    }
}

/// Whether `settled` are the settlements of all commitments that are overdue at the time
/// `now`, each settled once and rightly.
pub open spec fn all_settled(
    settled: Seq<Settlement>,
    book: OrderBook,
    claims: Map<(OrderId, Seq<char>), Timestamp>,
    now: Timestamp,
) -> bool {
    &&& settled_ids(settled).no_duplicates()
    &&& forall|id: OrderId| #[trigger]
        settled_ids(settled).contains(id) <==> book.settles(id, now)
    &&& forall|i: int|
        0 <= i < settled.len() ==> rightly_settled(#[trigger] settled[i], book, claims, now)
}

/// Settling commitments touches no other order.
pub proof fn law_settlements_leave_other_orders(
    book: OrderBook,
    settled: Seq<Settlement>,
    id: OrderId,
)
    requires
        !settled_ids(settled).contains(id),
    ensures
        book.after_settlements(settled).same_order(book, id),
    decreases settled.len(),
{
    if settled.len() > 0 {
        let rest = settled.drop_last();
        assert forall|i: int| 0 <= i < rest.len() implies settled_ids(rest)[i] != id by {
            assert(settled_ids(settled)[i] == settled_ids(rest)[i]);
        }
        assert(settled_ids(settled)[settled.len() - 1] == settled.last().order_id);
        law_settlements_leave_other_orders(book, rest, id);
    }
}

/// Of several settlements of different orders, each has the effect on its order that it
/// would have alone.
pub proof fn law_settlements_act_one_by_one(book: OrderBook, settled: Seq<Settlement>, i: int)
    requires
        settled_ids(settled).no_duplicates(),
        0 <= i < settled.len(),
    ensures
        book.after_settlements(settled).same_order(
            book.after_settlement(settled[i]),
            settled[i].order_id,
        ),
    decreases settled.len(),
{
    let rest = settled.drop_last();
    let id = settled[i].order_id;
    assert(settled_ids(rest) =~= settled_ids(settled).drop_last());
    if i == settled.len() - 1 {
        assert forall|j: int| 0 <= j < rest.len() implies settled_ids(rest)[j] != id by {
            assert(settled_ids(settled)[j] != settled_ids(settled)[i]);
        }
        law_settlements_leave_other_orders(book, rest, id);
    } else {
        law_settlements_act_one_by_one(book, rest, i);
        assert(settled_ids(settled)[i] != settled_ids(settled)[settled.len() - 1]);
        assert(settled.last().order_id != id);
    }
}

/// Settling commitments leaves the pending orders as they are, and opens or closes no
/// auction.
pub proof fn law_settlements_leave_auctions(book: OrderBook, settled: Seq<Settlement>)
    ensures
        book.after_settlements(settled).pending == book.pending,
        book.after_settlements(settled).auction == book.auction,
    decreases settled.len(),
{
    if settled.len() > 0 {
        law_settlements_leave_auctions(book, settled.drop_last());
    }
}

/// Settles every commitment that is overdue at the time `now`: its solver's claim in the
/// escrow decides whether the order is filled, and is used up.
///
/// The next best bids are judged by the clock, and the commitments are walked in no set
/// order; what is stated holds whatever the clock showed and whichever order it was.
pub fn settle_commitments(
    order_state: &mut OrderStateManager,
    chain_log: &mut ChainLog,
    escrow: &mut InMemoryEscrow,
    now: Timestamp,
) -> (settled: Vec<Settlement>)
    ensures
        all_settled(settled@, old(order_state)@, old(escrow)@, now),
        final(order_state)@ == old(order_state)@.after_settlements(settled@),
        final(chain_log)@ == old(chain_log)@ + verdict_events(settled@) + follow_up_events(
            settled@,
        ),
        old(chain_log)@.is_prefix_of(final(chain_log)@),
        final(escrow)@ == claims_left(old(escrow)@, settled@),
{
    let ghost book = order_state@;
    let ghost claims = escrow@;
    let verdicts = judge_commitments(order_state, chain_log, escrow, now);
    let ghost log = chain_log@;
    let mut settled: Vec<Settlement> = Vec::new();
    let mut i: usize = 0;
    assert(chain_log@ =~= log + follow_up_events(settled@));
    while i < verdicts.len()
        invariant
            i <= verdicts.len(),
            verdict_ids(verdicts@).no_duplicates(),
            forall|id: OrderId| #[trigger]
                verdict_ids(verdicts@).contains(id) <==> book.settles(id, now),
            forall|j: int|
                0 <= j < verdicts.len() ==> just(#[trigger] verdicts[j], book, claims),
            settled.len() == i,
            forall|j: int|
                0 <= j < settled.len() ==> {
                    &&& (#[trigger] settled[j]).order_id == verdicts[j].order_id
                    &&& settled[j].solver_id == verdicts[j].solver_id
                    &&& settled[j].outcome is Fulfilled == verdicts[j].fulfilled
                    &&& rightly_settled(settled[j], book, claims, now)
                },
            order_state@ == book.after_settlements(settled@),
            chain_log@ == log + follow_up_events(settled@),
        decreases verdicts.len() - i,
    {
        let order_id: OrderId = verdicts[i].order_id;
        let solver_id = verdicts[i].solver_id.clone();
        let ghost before = settled@;
        assert(just(verdicts[i as int], book, claims));
        proof {
            assert forall|j: int| 0 <= j < before.len() implies settled_ids(before)[j]
                != order_id by {
                assert(settled[j].order_id == verdicts[j].order_id);
                assert(verdict_ids(verdicts@)[j] != verdict_ids(verdicts@)[i as int]);
            }
            law_settlements_leave_other_orders(book, before, order_id);
        }
        if verdicts[i].fulfilled {
            let one = fill(order_state, order_id, solver_id);
            settled.push(one);
        } else {
            let winner = order_state.get_next_best_bid(&order_id, &solver_id);
            let ghost selected = winner;
            assert(book.may_replace_with(order_id, solver_id@, selected));
            let one = reassign(order_state, chain_log, order_id, solver_id, winner, now);
            assert(one.outcome == reassignment(order_id, selected, now));
            settled.push(one);
        }
        proof {
            assert(settled@.drop_last() =~= before);
            assert(chain_log@ =~= log + follow_up_events(settled@));
            assert(rightly_settled(settled[i as int], book, claims, now));
        }
        i = i + 1;
    }
    proof {
        assert(settled_ids(settled@) =~= verdict_ids(verdicts@));
        assert(settled@.map_values(|s: Settlement| (s.order_id, s.solver_id@)) =~= verdict_keys(
            verdicts@,
        ));
        assert(verdict_events(settled@) =~= logged_verdicts(verdicts@));
    }
    settled
}

/// The messages that tell the solvers what became of the orders: first the reassignments,
/// then the orders that were given up.
pub fn settlement_messages(settled: &Vec<Settlement>) -> (messages: Vec<SequencerToSolverMessage>)
    ensures
        messages@ == reassignment_messages(settled@) + given_up_messages(settled@),
{
    let mut messages: Vec<SequencerToSolverMessage> = Vec::new();
    let mut i: usize = 0;
    while i < settled.len()
        invariant
            i <= settled.len(),
            messages@ == reassignment_messages(settled@.take(i as int)),
        decreases settled.len() - i,
    {
        assert(settled@.take(i + 1).drop_last() =~= settled@.take(i as int));
        match &settled[i].outcome {
            SettlementOutcome::Reassigned(commitment) => {
                messages.push(SequencerToSolverMessage::CommitmentNotification(commitment.clone()));
            },
            _ => {},
        }
        i = i + 1;
    }
    assert(settled@.take(i as int) =~= settled@);
    let ghost awards = messages@;
    i = 0;
    assert(messages@ =~= awards + given_up_messages(settled@.take(0)));
    while i < settled.len()
        invariant
            i <= settled.len(),
            messages@ == awards + given_up_messages(settled@.take(i as int)),
        decreases settled.len() - i,
    {
        assert(settled@.take(i + 1).drop_last() =~= settled@.take(i as int));
        match &settled[i].outcome {
            SettlementOutcome::Fulfilled => {},
            SettlementOutcome::Reassigned(_) => {},
            _ => {
                messages.push(SequencerToSolverMessage::AuctionClosedNoWinner(settled[i].order_id));
            },
        }
        assert(messages@ =~= awards + given_up_messages(settled@.take(i + 1)));
        i = i + 1;
    }
    assert(settled@.take(i as int) =~= settled@);
    messages
}

/// The solvers are told of every reassignment and of every order that was given up. Of each
/// settlement the verdict is logged, and of each failure what followed from it.
pub proof fn law_every_settlement_is_announced(settled: Seq<Settlement>, i: int)
    requires
        0 <= i < settled.len(),
    ensures
        verdict_events(settled).contains(
            verdict_event(
                settled[i].order_id,
                settled[i].solver_id,
                settled[i].outcome is Fulfilled,
            ),
        ),
        match settled[i].outcome {
            SettlementOutcome::Fulfilled => true,
            SettlementOutcome::Reassigned(commitment) => {
                &&& reassignment_messages(settled).contains(
                    SequencerToSolverMessage::CommitmentNotification(commitment),
                )
                &&& follow_up_events(settled).contains(
                    ChainEvent::OrderReassigned {
                        order_id: settled[i].order_id,
                        prev_solver_id: settled[i].solver_id,
                        new_solver_id: commitment.solver_id,
                        new_commitment: commitment,
                    },
                )
            },
            _ => {
                &&& given_up_messages(settled).contains(
                    SequencerToSolverMessage::AuctionClosedNoWinner(settled[i].order_id),
                )
                &&& follow_up_events(settled).contains(
                    ChainEvent::OrderExpired(settled[i].order_id),
                )
            },
        },
    decreases settled.len(),
{
    let rest = settled.drop_last();
    let last = settled.len() - 1;
    let event = follow_up_event(settled[i]);
    assert(verdict_events(settled)[i] == verdict_event(
        settled[i].order_id,
        settled[i].solver_id,
        settled[i].outcome is Fulfilled,
    ));
    if i < last {
        law_every_settlement_is_announced(rest, i);
        assert(rest[i] == settled[i]);
        if event.len() > 0 {
            let k = choose|k: int|
                0 <= k < follow_up_events(rest).len() && follow_up_events(rest)[k] == event[0];
            assert(follow_up_events(settled)[k] == event[0]);
        }
        match settled[i].outcome {
            SettlementOutcome::Fulfilled => {},
            SettlementOutcome::Reassigned(commitment) => {
                let message = SequencerToSolverMessage::CommitmentNotification(commitment);
                let k = choose|k: int|
                    0 <= k < reassignment_messages(rest).len() && reassignment_messages(rest)[k]
                        == message;
                assert(reassignment_messages(settled)[k] == message);
            },
            _ => {
                let message = SequencerToSolverMessage::AuctionClosedNoWinner(settled[i].order_id);
                let k = choose|k: int|
                    0 <= k < given_up_messages(rest).len() && given_up_messages(rest)[k] == message;
                assert(given_up_messages(settled)[k] == message);
            },
        }
    } else {
        if event.len() > 0 {
            assert(follow_up_events(settled)[follow_up_events(rest).len() as int] == event[0]);
        }
        match settled[i].outcome {
            SettlementOutcome::Fulfilled => {},
            SettlementOutcome::Reassigned(commitment) => {
                assert(reassignment_messages(settled)[reassignment_messages(rest).len() as int]
                    == SequencerToSolverMessage::CommitmentNotification(commitment));
            },
            _ => {
                assert(given_up_messages(settled)[given_up_messages(rest).len() as int]
                    == SequencerToSolverMessage::AuctionClosedNoWinner(settled[i].order_id));
            },
        }
    }
}

} // verus!
