//! Which of an order's bids wins.
//!
//! The clock is read once for each bid: `readings[i]` is the time at which the validity of
//! `bids[i]` is judged.
use crate::types::{Bid, SolverId, Timestamp};
use vstd::prelude::*;

verus! {

impl Bid {
    /// Whether the bid still holds at the time `now`.
    pub open spec fn valid_at(self, now: Timestamp) -> bool {
        self.valid_till >= now
    }

    /// Whether the bid promises more than `other`, or as much but for a shorter time.
    pub open spec fn beats(self, other: Bid) -> bool {
        ||| self.promised_output() > other.promised_output()
        ||| self.promised_output() == other.promised_output() && self.valid_till < other.valid_till
    }

    /// Whether the bid promises more than `other`.
    pub open spec fn outpays(self, other: Bid) -> bool {
        self.promised_output() > other.promised_output()
    }
}

/// Whether bid `i` is valid and wins: no valid bid beats it, and it beats every valid bid
/// that came after it.
pub open spec fn best_at(bids: Seq<Bid>, readings: Seq<Timestamp>, i: int) -> bool {
    &&& 0 <= i < bids.len()
    &&& bids[i].valid_at(readings[i])
    &&& forall|j: int|
        0 <= j < bids.len() && (#[trigger] bids[j]).valid_at(readings[j]) ==> {
            &&& !bids[j].beats(bids[i])
            &&& j > i ==> bids[i].beats(bids[j])
        }
}

/// Whether `winner` is the selection among `bids`: the winning bid, or nothing where no
/// bid is valid.
pub open spec fn is_best(bids: Seq<Bid>, readings: Seq<Timestamp>, winner: Option<Bid>) -> bool {
    match winner {
        Some(bid) => exists|i: int| #[trigger] best_at(bids, readings, i) && bid == bids[i],
        None => forall|j: int|
            0 <= j < bids.len() ==> !(#[trigger] bids[j]).valid_at(readings[j]),
    }
}

/// Whether bid `i` may take an order over from the solver `failed`.
pub open spec fn may_replace(
    bids: Seq<Bid>,
    readings: Seq<Timestamp>,
    failed: Seq<char>,
    i: int,
) -> bool {
    bids[i].solver_id@ != failed && bids[i].valid_at(readings[i])
}

/// Whether bid `i` may replace `failed` and is the next best: none that may outpays it,
/// and it outpays every one that came after it.
pub open spec fn next_best_at(
    bids: Seq<Bid>,
    readings: Seq<Timestamp>,
    failed: Seq<char>,
    i: int,
) -> bool {
    &&& 0 <= i < bids.len()
    &&& may_replace(bids, readings, failed, i)
    &&& forall|j: int|
        0 <= j < bids.len() && #[trigger] may_replace(bids, readings, failed, j) ==> {
            &&& !bids[j].outpays(bids[i])
            &&& j > i ==> bids[i].outpays(bids[j])
        }
}

/// Whether `winner` is the selection of a replacement for `failed`: the next best bid, or
/// nothing where no bid may replace it.
pub open spec fn is_next_best(
    bids: Seq<Bid>,
    readings: Seq<Timestamp>,
    failed: Seq<char>,
    winner: Option<Bid>,
) -> bool {
    match winner {
        Some(bid) => exists|i: int|
            #[trigger] next_best_at(bids, readings, failed, i) && bid == bids[i],
        None => forall|j: int|
            0 <= j < bids.len() ==> !#[trigger] may_replace(bids, readings, failed, j),
    }
}

/// The best of `bids`, each judged at its own reading of the clock.
pub fn pick_best(bids: &Vec<Bid>, readings: &Vec<Timestamp>) -> (winner: Option<Bid>)
    requires
        bids.len() == readings.len(),
    ensures
        is_best(bids@, readings@, winner),
{
    let mut best: Option<usize> = None;
    let mut i: usize = 0;
    while i < bids.len()
        invariant
            i <= bids.len(),
            bids.len() == readings.len(),
            match best {
                Some(b) => best_at(bids@.take(i as int), readings@, b as int),
                None => forall|j: int| 0 <= j < i ==> !(#[trigger] bids[j]).valid_at(readings[j]),
            },
        decreases bids.len() - i,
    {
        let ghost seen = bids@.take(i as int);
        let ghost next = bids@.take(i + 1);
        assert(forall|j: int| 0 <= j < i ==> seen[j] == bids[j] && next[j] == bids[j]);
        if bids[i].valid_till >= readings[i] {
            match best {
                Some(b) => {
                    let held: u64 = bids[b].min_output();
                    let offered: u64 = bids[i].min_output();
                    if !(held > offered || (held == offered && bids[b].valid_till
                        < bids[i].valid_till)) {
                        best = Some(i);
                    }
                },
                None => {
                    best = Some(i);
                },
            }
        }
        i = i + 1;
    }
    match best {
        Some(b) => {
            assert(bids@.take(bids.len() as int) =~= bids@);
            assert(best_at(bids@, readings@, b as int));
            Some(bids[b].clone())
        },
        None => None,
    }
}

/// The best of the bids that may replace the solver `failed`, each judged at its own
/// reading of the clock.
pub fn pick_next_best(
    bids: &Vec<Bid>,
    readings: &Vec<Timestamp>,
    failed: &SolverId,
) -> (winner: Option<Bid>)
    requires
        bids.len() == readings.len(),
    ensures
        is_next_best(bids@, readings@, failed@, winner),
{
    let mut best: Option<usize> = None;
    let mut i: usize = 0;
    while i < bids.len()
        invariant
            i <= bids.len(),
            bids.len() == readings.len(),
            match best {
                Some(b) => next_best_at(bids@.take(i as int), readings@, failed@, b as int),
                None => forall|j: int|
                    0 <= j < i ==> !#[trigger] may_replace(bids@, readings@, failed@, j),
            },
        decreases bids.len() - i,
    {
        let ghost seen = bids@.take(i as int);
        let ghost next = bids@.take(i + 1);
        assert(forall|j: int| #![trigger may_replace(next, readings@, failed@, j)]
            0 <= j < i ==> may_replace(seen, readings@, failed@, j) == may_replace(
                next,
                readings@,
                failed@,
                j,
            ));
        assert(forall|j: int| #![trigger may_replace(next, readings@, failed@, j)]
            0 <= j <= i ==> may_replace(bids@, readings@, failed@, j) == may_replace(
                next,
                readings@,
                failed@,
                j,
            ));
        if bids[i].solver_id != *failed && bids[i].valid_till >= readings[i] {
            match best {
                Some(b) => {
                    if !(bids[b].min_output() > bids[i].min_output()) {
                        best = Some(i);
                    }
                },
                None => {
                    best = Some(i);
                },
            }
        }
        i = i + 1;
    }
    match best {
        Some(b) => {
            assert(bids@.take(bids.len() as int) =~= bids@);
            assert(next_best_at(bids@, readings@, failed@, b as int));
            Some(bids[b].clone())
        },
        None => None,
    }
}

} // verus!
