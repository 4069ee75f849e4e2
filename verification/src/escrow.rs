//! Claims of solvers that they have fulfilled their commitments.
use crate::clock::current_timestamp_secs;
use crate::types::{OrderId, SolverId, Timestamp};
use std::collections::HashMap;
use vstd::prelude::*;

verus! {

broadcast use vstd::std_specs::hash::group_hash_axioms;

/// One solver's claim, and the time at which it was recorded.
#[derive(Debug, Clone)]
struct Claim {
    solver_id: SolverId,
    time: Timestamp,
}

/// The time of the solver's latest claim in `claims`.
spec fn claim_time(claims: Seq<Claim>, solver_id: Seq<char>) -> Option<Timestamp>
    decreases claims.len(),
{
    if claims.len() == 0 {
        None
    } else if claims.last().solver_id@ == solver_id {
        Some(claims.last().time)
    } else {
        claim_time(claims.drop_last(), solver_id)
    }
}

/// A claim that is added last counts for its solver, and for no other.
proof fn lemma_added_claim(claims: Seq<Claim>, claim: Claim)
    ensures
        forall|solver_id: Seq<char>|
            #[trigger] claim_time(claims.push(claim), solver_id) == (if claim.solver_id@
                == solver_id {
                Some(claim.time)
            } else {
                claim_time(claims, solver_id)
            }),
{
    assert(claims.push(claim).drop_last() =~= claims);
}

/// A simplified in-memory escrow.
#[derive(Debug, Clone)]
pub struct InMemoryEscrow {
    fulfillment_claims: HashMap<OrderId, Vec<Claim>>,
}

impl View for InMemoryEscrow {
    /// The time of the claim of each order and solver that has one.
    type V = Map<(OrderId, Seq<char>), Timestamp>;

    closed spec fn view(&self) -> Map<(OrderId, Seq<char>), Timestamp> {
        Map::new(
            |key: (OrderId, Seq<char>)|
                self.fulfillment_claims@.contains_key(key.0) && claim_time(
                    self.fulfillment_claims@[key.0]@,
                    key.1,
                ) is Some,
            |key: (OrderId, Seq<char>)|
                claim_time(self.fulfillment_claims@[key.0]@, key.1)->0,
        )
    }
}

impl Default for InMemoryEscrow {
    fn default() -> (escrow: InMemoryEscrow)
        ensures
            escrow@ == Map::<(OrderId, Seq<char>), Timestamp>::empty(),
    {
        InMemoryEscrow::new()
    }
}

/// The claims of all solvers but one.
fn without_solver(claims: Vec<Claim>, solver_id: &SolverId) -> (kept: Vec<Claim>)
    ensures
        claim_time(kept@, solver_id@) is None,
        forall|other: Seq<char>|
            other != solver_id@ ==> #[trigger] claim_time(kept@, other) == claim_time(
                claims@,
                other,
            ),
{
    let mut kept: Vec<Claim> = Vec::new();
    let mut i: usize = 0;
    while i < claims.len()
        invariant
            i <= claims.len(),
            claim_time(kept@, solver_id@) is None,
            forall|other: Seq<char>|
                other != solver_id@ ==> #[trigger] claim_time(kept@, other) == claim_time(
                    claims@.take(i as int),
                    other,
                ),
        decreases claims.len() - i,
    {
        proof {
            lemma_added_claim(claims@.take(i as int), claims[i as int]);
            assert(claims@.take(i as int).push(claims[i as int]) =~= claims@.take(i + 1));
        }
        if claims[i].solver_id != *solver_id {
            let claim = Claim { solver_id: claims[i].solver_id.clone(), time: claims[i].time };
            proof {
                lemma_added_claim(kept@, claim);
            }
            kept.push(claim);
        }
        i = i + 1;
    }
    assert(claims@.take(claims.len() as int) =~= claims@);
    kept
}

impl InMemoryEscrow {
    pub fn new() -> (escrow: InMemoryEscrow)
        ensures
            escrow@ == Map::<(OrderId, Seq<char>), Timestamp>::empty(),
    {
        let escrow = InMemoryEscrow { fulfillment_claims: HashMap::new() };
        assert(escrow@ =~= Map::<(OrderId, Seq<char>), Timestamp>::empty());
        escrow
    }

    /// Takes the order's claims out, but for those of the solver.
    fn take_others(&mut self, order_id: OrderId, solver_id: &SolverId) -> (others: Vec<Claim>)
        ensures
            claim_time(others@, solver_id@) is None,
            final(self).fulfillment_claims@ == old(self).fulfillment_claims@.remove(order_id),
            forall|other: Seq<char>|
                other != solver_id@ ==> #[trigger] claim_time(others@, other) == (
                if old(self).fulfillment_claims@.contains_key(order_id) {
                    claim_time(old(self).fulfillment_claims@[order_id]@, other)
                } else {
                    None
                }),
    {
        match self.fulfillment_claims.remove(&order_id) {
            Some(claims) => without_solver(claims, solver_id),
            None => Vec::new(),
        }
    }

    /// Records that the solver claimed at the time `now` to have fulfilled the order. A
    /// later claim replaces an earlier one.
    pub fn record_fulfillment_claim_at(
        &mut self,
        order_id: OrderId,
        solver_id: SolverId,
        now: Timestamp,
    )
        ensures
            final(self)@ == old(self)@.insert((order_id, solver_id@), now),
    {
        let mut claims = self.take_others(order_id, &solver_id);
        let claim = Claim { solver_id, time: now };
        proof {
            lemma_added_claim(claims@, claim);
        }
        claims.push(claim);
        self.fulfillment_claims.insert(order_id, claims);
        proof {
            let after = old(self)@.insert((order_id, solver_id@), now);
            assert forall|key: (OrderId, Seq<char>)| #[trigger]
                self@.contains_key(key) == after.contains_key(key) && (self@.contains_key(key)
                    ==> self@[key] == after[key]) by {
                assert(key.0 == order_id && key.1 == solver_id@ ==> key == (order_id, solver_id@));
            }
            assert(self@ =~= after);
        }
    }

    /// Records the solver's claim at the time that the clock shows.
    pub fn record_fulfillment_claim(&mut self, order_id: OrderId, solver_id: SolverId)
        ensures
            exists|now: Timestamp|
                crate::clock::clock_shows(now) && final(self)@ == #[trigger] old(self)@.insert(
                    (order_id, solver_id@),
                    now,
                ),
    {
        let now: Timestamp = current_timestamp_secs();
        self.record_fulfillment_claim_at(order_id, solver_id, now);
    }

    /// Whether the solver's claim was recorded by the deadline.
    pub fn check_fulfillment(
        &self,
        order_id: OrderId,
        solver_id: &SolverId,
        commitment_deadline: Timestamp,
    ) -> (fulfilled: bool)
        ensures
            fulfilled == (self@.contains_key((order_id, solver_id@)) && self@[(
                order_id,
                solver_id@,
            )] <= commitment_deadline),
    {
        match self.fulfillment_claims.get(&order_id) {
            Some(claims) => {
                let mut i: usize = claims.len();
                assert(claims@.take(i as int) =~= claims@);
                while i > 0
                    invariant
                        i <= claims.len(),
                        self.fulfillment_claims@.contains_key(order_id),
                        self.fulfillment_claims@[order_id] == claims,
                        claim_time(claims@, solver_id@) == claim_time(
                            claims@.take(i as int),
                            solver_id@,
                        ),
                    decreases i,
                {
                    assert(claims@.take(i as int).drop_last() =~= claims@.take(i - 1));
                    if claims[i - 1].solver_id == *solver_id {
                        return claims[i - 1].time <= commitment_deadline;
                    }
                    i = i - 1;
                }
                false
            },
            None => false,
        }
    }

    /// Forgets the solver's claim on the order.
    pub fn clear_claim(&mut self, order_id: OrderId, solver_id: &SolverId)
        ensures
            final(self)@ == old(self)@.remove((order_id, solver_id@)),
    {
        let claims = self.take_others(order_id, solver_id);
        let ghost others = claims@;
        if claims.len() > 0 {
            self.fulfillment_claims.insert(order_id, claims);
        }
        proof {
            let after = old(self)@.remove((order_id, solver_id@));
            assert forall|key: (OrderId, Seq<char>)| #[trigger]
                self@.contains_key(key) == after.contains_key(key) && (self@.contains_key(key)
                    ==> self@[key] == after[key]) by {
                assert(others.len() == 0 ==> claim_time(others, key.1) is None);
                assert(key.0 == order_id && key.1 == solver_id@ ==> key == (order_id, solver_id@));
            }
            assert(self@ =~= after);
        }
    }
}

} // verus!
