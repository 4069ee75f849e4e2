use order_auction::auction::{
    close_auction, close_auctions, closing_messages, commit, due_orders, AuctionOutcome,
};
use order_auction::clock::{current_timestamp_secs, take_readings, timestamp_at};
use order_auction::intake::{open_auctions, OrderSource};
use order_auction::ports::{receive_bid, receive_claim, receive_claim_at, BidReceipt, ClaimReceipt};
use order_auction::rate::ConversionRate;
use order_auction::settlement::{
    overdue_orders, reassign, settle_commitments, settlement_messages, SettlementOutcome,
};
use order_auction::types::{
    Bid, ChainEvent, Commitment, Order, SequencerToSolverMessage, SolverToSequencerMessage,
};
use order_auction::{ChainLog, InMemoryEscrow, OrderStateManager};
use std::time::{Duration, SystemTime, UNIX_EPOCH};

fn bid(order_id: u64, solver: &str, value: f64, valid_till: u64) -> Bid {
    Bid {
        order_id,
        solver_id: solver.to_string(),
        max_input: 100,
        conversion_rate: ConversionRate::from_bits(value.to_bits()),
        valid_till,
    }
}

fn order(id: u64, creation_time: u64) -> Order {
    Order { id, description: format!("order {id}"), creation_time }
}

fn commitment(order_id: u64, solver: &str, deadline: u64) -> Commitment {
    Commitment {
        order_id,
        solver_id: solver.to_string(),
        input_amount: 100,
        min_output_amount: 120,
        deadline,
    }
}

/// A short text for an event.
fn shown(event: &ChainEvent) -> String {
    match event {
        ChainEvent::OrderAdded(order) => format!("added {}", order.id),
        ChainEvent::BatchCreated(ids) => format!("batch {ids:?}"),
        ChainEvent::BidReceived(bid) => format!("bid {} {}", bid.order_id, bid.solver_id),
        ChainEvent::BidSelected { order_id, solver_id, commitment } => {
            format!("selected {order_id} {solver_id} {}", commitment.deadline)
        }
        ChainEvent::OrderFulfilled { order_id, solver_id } => {
            format!("fulfilled {order_id} {solver_id}")
        }
        ChainEvent::OrderFailedToFulfill { order_id, solver_id } => {
            format!("failed {order_id} {solver_id}")
        }
        ChainEvent::OrderReassigned { order_id, prev_solver_id, new_solver_id, new_commitment } => {
            format!(
                "reassigned {order_id} {prev_solver_id} {new_solver_id} {}",
                new_commitment.deadline
            )
        }
        ChainEvent::OrderExpired(id) => format!("expired {id}"),
    }
}

fn log_of(log: &ChainLog) -> Vec<String> {
    log.events.iter().map(shown).collect()
}

#[test]
fn orders_arrive_on_every_other_tick() {
    let mut source = OrderSource::new();
    let first = source.next_order(17).unwrap();
    assert_eq!(first.id, 1);
    assert_eq!(first.description, "Sample Order #1");
    assert_eq!(first.creation_time, 17);
    assert!(source.next_order(19).is_none());
    assert_eq!(source.next_order(21).unwrap().id, 2);
    assert_eq!(source.next_order_id, 3);
    assert_eq!(source.tick, 103);
}

#[test]
fn descriptions_carry_the_id_in_decimal() {
    for id in [0u64, 9, 10, 99, 100, 1203, 18446744073709551615] {
        let mut source = OrderSource { next_order_id: id, tick: -2 };
        let order = source.next_order(0).unwrap();
        assert_eq!(order.description, format!("Sample Order #{id}"));
        assert_eq!(source.next_order_id, id.wrapping_add(1));
    }
}

#[test]
fn a_round_opens_with_a_batch() {
    let mut state = OrderStateManager::new();
    let mut log = ChainLog::default();
    assert!(open_auctions(&mut state, &mut log, None).is_none());
    assert!(log.events.is_empty());
    let announcement = open_auctions(&mut state, &mut log, Some(order(1, 10)));
    match announcement {
        Some(SequencerToSolverMessage::NewOrderBatch(orders)) => {
            assert_eq!(orders, vec![order(1, 10)])
        }
        other => panic!("{other:?}"),
    }
    assert_eq!(log_of(&log), vec!["added 1", "batch [1]"]);
    assert!(state.active_orders_in_auction.contains_key(&1));
}

#[test]
fn a_deadline_lies_at_most_the_commitment_duration_ahead() {
    let made = commit(1, &bid(1, "s1", 1.5, 200), 100);
    assert_eq!(made.deadline, 110);
    assert_eq!(made.input_amount, 100);
    assert_eq!(made.min_output_amount, 150);
    assert_eq!(made.solver_id, "s1");
    assert_eq!(commit(1, &bid(1, "s1", 1.5, 110), 100).deadline, 110);
    assert_eq!(commit(1, &bid(1, "s1", 1.5, 109), 100).deadline, 109);
    assert_eq!(commit(1, &bid(1, "s1", 1.5, 100), 100).deadline, 100);
    assert_eq!(commit(1, &bid(1, "s1", 1.5, 3), 2).deadline, 3);
    assert_eq!(commit(1, &bid(1, "s1", 1.5, u64::MAX), u64::MAX - 1).deadline, u64::MAX);
}

#[test]
fn auctions_are_due_after_the_collection_period() {
    let mut state = OrderStateManager::new();
    state.add_order(order(1, 100));
    state.create_order_batch(5);
    assert!(due_orders(&state, 104).is_empty());
    assert_eq!(due_orders(&state, 105), vec![1]);
    state.active_commitments.insert(1, commitment(1, "s1", 110));
    assert!(due_orders(&state, 105).is_empty());
    let mut late = OrderStateManager::new();
    late.add_order(order(2, u64::MAX));
    late.create_order_batch(5);
    assert!(due_orders(&late, u64::MAX).is_empty());
    assert!(due_orders(&late, 3).is_empty());
}

#[test]
fn closing_an_auction_has_three_ends() {
    let mut state = OrderStateManager::new();
    let mut log = ChainLog::new();
    for id in 1..=3 {
        state.add_order(order(id, 100));
    }
    state.create_order_batch(5);
    for id in 1..=3 {
        state.add_bid(bid(id, "s1", 1.5, 120));
    }

    let won = close_auction(&mut state, &mut log, 1, Some(bid(1, "s1", 1.5, 120)), 105);
    assert!(matches!(&won.outcome, AuctionOutcome::Committed(c) if c.deadline == 115));
    assert!(!state.active_orders_in_auction.contains_key(&1));
    assert!(state.active_commitments.contains_key(&1));
    assert!(state.received_bids.contains_key(&1));

    let lapsed = close_auction(&mut state, &mut log, 2, Some(bid(2, "s1", 1.5, 104)), 105);
    assert!(matches!(lapsed.outcome, AuctionOutcome::Lapsed(_)));
    assert!(state.active_orders_in_auction.contains_key(&2));
    assert!(state.received_bids.contains_key(&2));

    let expired = close_auction(&mut state, &mut log, 3, None, 105);
    assert!(matches!(expired.outcome, AuctionOutcome::Expired));
    assert!(!state.active_orders_in_auction.contains_key(&3));
    assert!(!state.received_bids.contains_key(&3));

    assert_eq!(log_of(&log), vec!["selected 1 s1 115", "expired 3"]);
    let messages = closing_messages(&vec![expired, lapsed, won]);
    assert_eq!(messages.len(), 2);
    assert!(matches!(
        &messages[0],
        SequencerToSolverMessage::CommitmentNotification(c) if c.order_id == 1
    ));
    assert!(matches!(&messages[1], SequencerToSolverMessage::AuctionClosedNoWinner(3)));
}

#[test]
fn a_round_closes_what_is_due() {
    let now = current_timestamp_secs();
    let mut state = OrderStateManager::new();
    let mut log = ChainLog::new();
    state.add_order(order(1, now - 5));
    state.add_order(order(2, now - 9));
    state.add_order(order(3, now));
    state.create_order_batch(5);
    state.add_bid(bid(1, "s1", 1.2, now + 60));
    state.add_bid(bid(1, "s2", 1.4, now + 60));
    state.add_bid(bid(2, "s1", 1.2, now - 1));
    let closed = close_auctions(&mut state, &mut log, now);
    assert_eq!(closed.len(), 2);
    assert_eq!(state.active_commitments.len(), 1);
    assert_eq!(state.active_commitments[&1].solver_id, "s2");
    assert_eq!(state.active_commitments[&1].min_output_amount, 140);
    assert_eq!(state.active_commitments[&1].deadline, now + 10);
    assert_eq!(state.active_orders_in_auction.len(), 1);
    assert!(state.active_orders_in_auction.contains_key(&3));
    let mut events = log_of(&log);
    events.sort();
    assert_eq!(events, vec!["expired 2".to_string(), format!("selected 1 s2 {}", now + 10)]);
    assert!(close_auctions(&mut state, &mut log, now).is_empty());
}

#[test]
fn commitments_are_overdue_after_the_grace_period() {
    let mut state = OrderStateManager::new();
    state.active_commitments.insert(1, commitment(1, "s1", 110));
    assert!(overdue_orders(&state, 110).is_empty());
    assert!(overdue_orders(&state, 112).is_empty());
    assert_eq!(overdue_orders(&state, 113), vec![1]);
    state.active_commitments.insert(1, commitment(1, "s1", u64::MAX));
    assert!(overdue_orders(&state, u64::MAX).is_empty());
    assert!(overdue_orders(&state, 1).is_empty());
}

#[test]
fn a_timely_claim_fills_the_order() {
    let mut state = OrderStateManager::new();
    let mut log = ChainLog::new();
    let mut escrow = InMemoryEscrow::new();
    state.active_commitments.insert(1, commitment(1, "s1", 110));
    state.add_bid(bid(1, "s2", 1.0, u64::MAX));
    escrow.record_fulfillment_claim_at(1, "s1".to_string(), 110);
    let settled = settle_commitments(&mut state, &mut log, &mut escrow, 113);
    assert_eq!(settled.len(), 1);
    assert!(matches!(settled[0].outcome, SettlementOutcome::Fulfilled));
    assert_eq!(settled[0].solver_id, "s1");
    assert!(state.active_commitments.is_empty());
    assert!(state.received_bids.is_empty());
    assert_eq!(log_of(&log), vec!["fulfilled 1 s1"]);
    assert!(!escrow.check_fulfillment(1, &"s1".to_string(), u64::MAX));
    assert!(settlement_messages(&settled).is_empty());
}

#[test]
fn a_late_claim_or_one_of_another_solver_does_not_count() {
    let now = current_timestamp_secs();
    let mut state = OrderStateManager::new();
    let mut log = ChainLog::new();
    let mut escrow = InMemoryEscrow::new();
    let deadline = now - 3;
    state.active_commitments.insert(1, commitment(1, "s1", deadline));
    state.add_bid(bid(1, "s1", 1.9, now + 60));
    state.add_bid(bid(1, "s2", 1.1, now + 4));
    state.add_bid(bid(1, "s3", 1.0, now + 60));
    escrow.record_fulfillment_claim_at(1, "s1".to_string(), deadline + 1);
    escrow.record_fulfillment_claim_at(1, "s2".to_string(), deadline);
    let settled = settle_commitments(&mut state, &mut log, &mut escrow, now);
    assert_eq!(settled.len(), 1);
    assert!(matches!(&settled[0].outcome, SettlementOutcome::Reassigned(c) if c.solver_id == "s2"));
    assert_eq!(state.active_commitments[&1].solver_id, "s2");
    assert_eq!(state.active_commitments[&1].deadline, now + 4);
    assert_eq!(state.received_bids[&1].len(), 3);
    assert_eq!(
        log_of(&log),
        vec!["failed 1 s1".to_string(), format!("reassigned 1 s1 s2 {}", now + 4)]
    );
    assert!(!escrow.check_fulfillment(1, &"s1".to_string(), u64::MAX));
    assert!(escrow.check_fulfillment(1, &"s2".to_string(), deadline));
    let messages = settlement_messages(&settled);
    assert_eq!(messages.len(), 1);
    assert!(matches!(
        &messages[0],
        SequencerToSolverMessage::CommitmentNotification(c) if c.solver_id == "s2"
    ));
    assert!(settle_commitments(&mut state, &mut log, &mut escrow, now).is_empty());
}

#[test]
fn an_order_without_another_valid_bid_is_given_up() {
    let now = current_timestamp_secs();
    let mut state = OrderStateManager::new();
    let mut log = ChainLog::new();
    let mut escrow = InMemoryEscrow::new();
    state.active_commitments.insert(1, commitment(1, "s1", now - 3));
    state.add_bid(bid(1, "s1", 1.9, now + 60));
    state.add_bid(bid(1, "s2", 1.1, now - 1));
    let settled = settle_commitments(&mut state, &mut log, &mut escrow, now);
    assert!(matches!(settled[0].outcome, SettlementOutcome::Abandoned));
    assert!(state.active_commitments.is_empty());
    assert!(state.received_bids.is_empty());
    assert_eq!(log_of(&log), vec!["failed 1 s1", "expired 1"]);
    assert!(matches!(
        &settlement_messages(&settled)[..],
        [SequencerToSolverMessage::AuctionClosedNoWinner(1)]
    ));
}

#[test]
fn a_replacement_that_lapsed_gives_the_order_up() {
    let mut state = OrderStateManager::new();
    let mut log = ChainLog::new();
    state.active_commitments.insert(1, commitment(1, "s1", 90));
    state.add_bid(bid(1, "s2", 1.1, 99));
    let winner = Some(bid(1, "s2", 1.1, 99));
    let settled = reassign(&mut state, &mut log, 1, "s1".to_string(), winner, 100);
    assert!(matches!(settled.outcome, SettlementOutcome::Lapsed(_)));
    assert_eq!(settled.solver_id, "s1");
    assert!(state.active_commitments.is_empty());
    assert!(state.received_bids.is_empty());
    assert_eq!(log_of(&log), vec!["expired 1"]);
}

#[test]
fn verdicts_are_logged_before_what_follows_from_them() {
    let now = current_timestamp_secs();
    let mut state = OrderStateManager::new();
    let mut log = ChainLog::new();
    let mut escrow = InMemoryEscrow::new();
    for id in 1..=3 {
        state.active_commitments.insert(id, commitment(id, "s1", now - 3));
    }
    state.active_commitments.insert(4, commitment(4, "s1", now));
    escrow.record_fulfillment_claim_at(2, "s1".to_string(), now - 3);
    let settled = settle_commitments(&mut state, &mut log, &mut escrow, now);
    assert_eq!(settled.len(), 3);
    let mut verdicts = log_of(&log)[..3].to_vec();
    verdicts.sort();
    assert_eq!(verdicts, vec!["failed 1 s1", "failed 3 s1", "fulfilled 2 s1"]);
    let mut rest = log_of(&log)[3..].to_vec();
    rest.sort();
    assert_eq!(rest, vec!["expired 1", "expired 3"]);
    assert_eq!(state.active_commitments.len(), 1);
}

#[test]
fn the_bid_port_takes_bids_for_known_orders() {
    let mut state = OrderStateManager::new();
    let mut log = ChainLog::new();
    let unknown = SolverToSequencerMessage::SubmitBid(bid(1, "s1", 1.0, 100));
    assert_eq!(receive_bid(&mut state, &mut log, unknown.clone()), BidReceipt::UnknownOrder(1));
    assert!(state.received_bids.is_empty() && log.events.is_empty());
    state.add_order(order(1, 10));
    state.create_order_batch(5);
    assert_eq!(receive_bid(&mut state, &mut log, unknown), BidReceipt::Accepted);
    assert_eq!(state.received_bids[&1], vec![bid(1, "s1", 1.0, 100)]);
    assert_eq!(log_of(&log), vec!["bid 1 s1"]);
    state.active_commitments.insert(2, commitment(2, "s1", 110));
    let committed = SolverToSequencerMessage::SubmitBid(bid(2, "s2", 1.0, 100));
    assert_eq!(receive_bid(&mut state, &mut log, committed), BidReceipt::Accepted);
    let claim = SolverToSequencerMessage::FulfillmentComplete {
        order_id: 1,
        solver_id: "s1".to_string(),
    };
    assert_eq!(receive_bid(&mut state, &mut log, claim), BidReceipt::UnexpectedMessage);
    assert_eq!(log.events.len(), 2);
}

#[test]
fn the_fulfilment_port_takes_claims() {
    let mut escrow = InMemoryEscrow::new();
    let solver = "s1".to_string();
    let claim =
        SolverToSequencerMessage::FulfillmentComplete { order_id: 1, solver_id: solver.clone() };
    assert_eq!(receive_claim_at(&mut escrow, claim.clone(), 42), ClaimReceipt::Recorded);
    assert!(escrow.check_fulfillment(1, &solver, 42));
    assert!(!escrow.check_fulfillment(1, &solver, 41));
    let submitted = SolverToSequencerMessage::SubmitBid(bid(1, "s1", 1.0, 100));
    assert_eq!(receive_claim(&mut escrow, submitted), ClaimReceipt::UnexpectedMessage);
    let before = current_timestamp_secs();
    assert_eq!(receive_claim(&mut escrow, claim), ClaimReceipt::Recorded);
    let after = current_timestamp_secs();
    assert!(!escrow.check_fulfillment(1, &solver, before - 1));
    assert!(escrow.check_fulfillment(1, &solver, after));
}

#[test]
fn claims_are_kept_by_order_and_solver() {
    let mut escrow = InMemoryEscrow::default();
    let (a, b) = ("a".to_string(), "b".to_string());
    escrow.record_fulfillment_claim_at(1, a.clone(), 10);
    escrow.record_fulfillment_claim_at(1, b.clone(), 20);
    escrow.record_fulfillment_claim_at(2, a.clone(), 30);
    assert!(escrow.check_fulfillment(1, &a, 10));
    assert!(!escrow.check_fulfillment(1, &b, 19));
    assert!(escrow.check_fulfillment(1, &b, 20));
    assert!(!escrow.check_fulfillment(2, &b, 99));
    assert!(!escrow.check_fulfillment(3, &a, 99));
    // A later claim replaces the earlier one.
    escrow.record_fulfillment_claim_at(1, a.clone(), 15);
    assert!(!escrow.check_fulfillment(1, &a, 14));
    assert!(escrow.check_fulfillment(1, &a, 15));
    escrow.clear_claim(1, &a);
    assert!(!escrow.check_fulfillment(1, &a, 99));
    assert!(escrow.check_fulfillment(1, &b, 20));
    assert!(escrow.check_fulfillment(2, &a, 30));
    escrow.clear_claim(1, &a);
    escrow.clear_claim(1, &b);
    escrow.clear_claim(9, &b);
    assert!(!escrow.check_fulfillment(1, &b, 99));
}

#[test]
fn the_clock_counts_seconds_since_the_epoch() {
    let at = |secs, nanos| UNIX_EPOCH + Duration::new(secs, nanos);
    assert_eq!(timestamp_at(at(1_700_000_000, 999_999_999)), 1_700_000_000);
    assert_eq!(timestamp_at(at(1_700_000_000, 0)), 1_700_000_000);
    assert_eq!(timestamp_at(at(0, 999_999_999)), 0);
    assert_eq!(timestamp_at(UNIX_EPOCH - Duration::new(5, 0)), 0);
    let before = timestamp_at(SystemTime::now());
    let now = current_timestamp_secs();
    assert!(before <= now && now <= timestamp_at(SystemTime::now()));
    // Well after the start of 2024.
    assert!(current_timestamp_secs() > 1_704_067_200);
    let readings = take_readings(3);
    assert_eq!(readings.len(), 3);
    assert!(readings.iter().all(|reading| *reading > 1_704_067_200));
}

#[test]
fn an_order_runs_through_a_whole_life() {
    let mut source = OrderSource::default();
    let mut state = OrderStateManager::new();
    let mut log = ChainLog::new();
    let mut escrow = InMemoryEscrow::new();
    let now = current_timestamp_secs();
    let arrived = source.next_order(now);
    assert!(open_auctions(&mut state, &mut log, arrived).is_some());
    assert!(close_auctions(&mut state, &mut log, now).is_empty());
    let offer = SolverToSequencerMessage::SubmitBid(bid(1, "s1", 1.5, now + 100));
    assert_eq!(receive_bid(&mut state, &mut log, offer), BidReceipt::Accepted);
    assert_eq!(close_auctions(&mut state, &mut log, now + 5).len(), 1);
    let deadline = state.active_commitments[&1].deadline;
    assert_eq!(deadline, now + 15);
    assert!(settle_commitments(&mut state, &mut log, &mut escrow, deadline + 2).is_empty());
    escrow.record_fulfillment_claim_at(1, "s1".to_string(), deadline - 1);
    assert_eq!(settle_commitments(&mut state, &mut log, &mut escrow, deadline + 3).len(), 1);
    assert_eq!(
        log_of(&log),
        vec![
            "added 1".to_string(),
            "batch [1]".to_string(),
            "bid 1 s1".to_string(),
            format!("selected 1 s1 {deadline}"),
            "fulfilled 1 s1".to_string(),
        ]
    );
    assert!(state.active_commitments.is_empty() && state.received_bids.is_empty());
}

#[test]
fn ticks_number_their_orders_in_turn() {
    let mut source = OrderSource::new();
    let mut state = OrderStateManager::new();
    let mut log = ChainLog::new();
    let mut escrow = InMemoryEscrow::new();
    for tick in 0..20 {
        let arrived = source.next_order(tick);
        open_auctions(&mut state, &mut log, arrived);
        close_auctions(&mut state, &mut log, tick);
        settle_commitments(&mut state, &mut log, &mut escrow, tick);
        assert!(state.pending_orders.is_empty());
        for (id, order) in &state.active_orders_in_auction {
            assert_eq!(*id, order.id);
            assert!(*id < source.next_order_id);
            assert!(!state.active_commitments.contains_key(id));
        }
    }
    let added: Vec<String> =
        log_of(&log).into_iter().filter(|event| event.starts_with("added")).collect();
    let expected: Vec<String> = (1..=10).map(|id| format!("added {id}")).collect();
    assert_eq!(added, expected);
    // Without bids every order expires once the collection period is over.
    assert_eq!(log_of(&log).iter().filter(|event| event.starts_with("expired")).count(), 8);
}

#[test]
fn the_log_keeps_what_it_holds() {
    let mut log = ChainLog::new();
    log.log_event(ChainEvent::OrderExpired(1));
    log.log_event(ChainEvent::OrderAdded(order(2, 5)));
    let mut state = OrderStateManager::new();
    open_auctions(&mut state, &mut log, Some(order(3, 6)));
    assert_eq!(log_of(&log), vec!["expired 1", "added 2", "added 3", "batch [3]"]);
}
