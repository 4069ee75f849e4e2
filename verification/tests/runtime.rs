use order_auction::clock::current_timestamp_secs;
use order_auction::rate::ConversionRate;
use order_auction::types::{
    Bid, ChainEvent, Commitment, Order, COMMITMENT_DURATION_SECS, GRACE_PERIOD_SECS,
};
use order_auction::{ChainLog, InMemoryEscrow, OrderStateManager};
use std::sync::{mpsc, Arc, Mutex};
use std::time::Duration;

fn rate(value: f64) -> ConversionRate {
    ConversionRate::from_bits(value.to_bits())
}

/// Waits without a message ever coming.
fn sleep(duration: Duration) {
    let (_sender, receiver) = mpsc::channel::<()>();
    assert!(receiver.recv_timeout(duration).is_err());
}

#[test]
fn test_happy_path_order_fulfillment() {
    let mut order_manager = OrderStateManager::new();
    let mut escrow = InMemoryEscrow::new();
    let mut chain_log = ChainLog::new();

    let order = Order {
        id: 1,
        description: "Test Order #1".to_string(),
        creation_time: current_timestamp_secs(),
    };

    order_manager.add_order(order.clone());
    chain_log.log_event(ChainEvent::OrderAdded(order.clone()));

    let batch = order_manager.create_order_batch(5);
    assert_eq!(batch.len(), 1);
    assert_eq!(batch[0].id, 1);

    let bid = Bid {
        order_id: 1,
        solver_id: "solver1".to_string(),
        max_input: 100,
        conversion_rate: rate(1.5),
        valid_till: current_timestamp_secs() + 60,
    };

    order_manager.add_bid(bid.clone());
    chain_log.log_event(ChainEvent::BidReceived(bid.clone()));

    let best_bid = order_manager.select_best_bid(&1).unwrap();
    assert_eq!(best_bid.solver_id, "solver1");
    assert_eq!(best_bid.min_output(), 150);

    let commitment = Commitment {
        order_id: 1,
        solver_id: best_bid.solver_id.clone(),
        input_amount: best_bid.max_input,
        min_output_amount: best_bid.min_output(),
        deadline: current_timestamp_secs() + COMMITMENT_DURATION_SECS,
    };

    order_manager.active_commitments.insert(1, commitment.clone());

    escrow.record_fulfillment_claim(1, "solver1".to_string());

    let is_fulfilled = escrow.check_fulfillment(1, &"solver1".to_string(), commitment.deadline);
    assert!(is_fulfilled);
}

#[test]
fn test_order_reassignment_after_failed_fulfillment() {
    let mut order_manager = OrderStateManager::new();
    let mut escrow = InMemoryEscrow::new();
    let mut chain_log = ChainLog::new();

    let order = Order {
        id: 2,
        description: "Test Order #2".to_string(),
        creation_time: current_timestamp_secs(),
    };

    order_manager.add_order(order.clone());
    chain_log.log_event(ChainEvent::OrderAdded(order.clone()));

    let batch = order_manager.create_order_batch(5);
    assert_eq!(batch.len(), 1);

    let bid1 = Bid {
        order_id: 2,
        solver_id: "solver1".to_string(),
        max_input: 100,
        conversion_rate: rate(1.5),
        valid_till: current_timestamp_secs() + 120,
    };

    let bid2 = Bid {
        order_id: 2,
        solver_id: "solver2".to_string(),
        max_input: 100,
        conversion_rate: rate(1.3),
        valid_till: current_timestamp_secs() + 120,
    };

    order_manager.add_bid(bid1.clone());
    order_manager.add_bid(bid2.clone());
    chain_log.log_event(ChainEvent::BidReceived(bid1.clone()));
    chain_log.log_event(ChainEvent::BidReceived(bid2.clone()));

    let best_bid = order_manager.select_best_bid(&2).unwrap();
    assert_eq!(best_bid.solver_id, "solver1");

    let commitment1 = Commitment {
        order_id: 2,
        solver_id: best_bid.solver_id.clone(),
        input_amount: best_bid.max_input,
        min_output_amount: best_bid.min_output(),
        deadline: current_timestamp_secs() + 5,
    };

    order_manager.active_commitments.insert(2, commitment1.clone());

    sleep(Duration::from_secs(6 + GRACE_PERIOD_SECS + 1));

    let is_fulfilled = escrow.check_fulfillment(2, &"solver1".to_string(), commitment1.deadline);
    assert!(!is_fulfilled);

    let next_best = order_manager.get_next_best_bid(&2, &"solver1".to_string()).unwrap();
    assert_eq!(next_best.solver_id, "solver2");
    assert_eq!(next_best.min_output(), 130);

    let commitment2 = Commitment {
        order_id: 2,
        solver_id: next_best.solver_id.clone(),
        input_amount: next_best.max_input,
        min_output_amount: next_best.min_output(),
        deadline: current_timestamp_secs() + COMMITMENT_DURATION_SECS,
    };

    order_manager.active_commitments.remove(&2);
    order_manager.active_commitments.insert(2, commitment2.clone());

    chain_log.log_event(ChainEvent::OrderReassigned {
        order_id: 2,
        prev_solver_id: "solver1".to_string(),
        new_solver_id: "solver2".to_string(),
        new_commitment: commitment2.clone(),
    });

    escrow.record_fulfillment_claim(2, "solver2".to_string());
    let is_fulfilled2 = escrow.check_fulfillment(2, &"solver2".to_string(), commitment2.deadline);
    assert!(is_fulfilled2);
}

#[test]
fn test_no_valid_bids_order_expiry() {
    let mut order_manager = OrderStateManager::new();
    let mut chain_log = ChainLog::new();

    let order = Order {
        id: 3,
        description: "Test Order #3".to_string(),
        creation_time: current_timestamp_secs(),
    };

    order_manager.add_order(order.clone());
    let batch = order_manager.create_order_batch(5);
    assert_eq!(batch.len(), 1);

    let expired_bid = Bid {
        order_id: 3,
        solver_id: "solver1".to_string(),
        max_input: 100,
        conversion_rate: rate(1.5),
        valid_till: current_timestamp_secs() - 10,
    };

    order_manager.add_bid(expired_bid);

    let best_bid = order_manager.select_best_bid(&3);
    assert!(best_bid.is_none());

    chain_log.log_event(ChainEvent::OrderExpired(3));
}

#[test]
fn test_concurrent_bid_handling() {
    let order_manager = Arc::new(Mutex::new(OrderStateManager::new()));

    let order = Order {
        id: 4,
        description: "Test Order #4".to_string(),
        creation_time: current_timestamp_secs(),
    };

    order_manager.lock().unwrap().add_order(order.clone());
    order_manager.lock().unwrap().create_order_batch(5);

    let runtime = tokio::runtime::Builder::new_multi_thread().worker_threads(5).build().unwrap();
    let handles: Vec<_> = (0..5)
        .map(|i| {
            let om = Arc::clone(&order_manager);
            runtime.spawn_blocking(move || {
                let bid = Bid {
                    order_id: 4,
                    solver_id: format!("solver{i}"),
                    max_input: 100 + i * 10,
                    conversion_rate: rate(1.0 + (i as f64 * 0.1)),
                    valid_till: current_timestamp_secs() + 60,
                };
                om.lock().unwrap().add_bid(bid);
            })
        })
        .collect();

    for handle in handles {
        runtime.block_on(handle).unwrap();
    }

    let bids_count = order_manager
        .lock()
        .unwrap()
        .received_bids
        .get(&4)
        .map(|bids| bids.len())
        .unwrap_or(0);
    assert_eq!(bids_count, 5);

    let best_bid = order_manager.lock().unwrap().select_best_bid(&4).unwrap();
    assert_eq!(best_bid.solver_id, "solver4");
    assert_eq!(best_bid.min_output(), 196);
}
