use order_auction::rate::ConversionRate;
use order_auction::selection::{pick_best, pick_next_best};
use order_auction::types::{Bid, Order};
use order_auction::OrderStateManager;

fn bid(solver: &str, max_input: u64, value: f64, valid_till: u64) -> Bid {
    Bid {
        order_id: 7,
        solver_id: solver.to_string(),
        max_input,
        conversion_rate: ConversionRate::from_bits(value.to_bits()),
        valid_till,
    }
}

fn order(id: u64) -> Order {
    Order { id, description: format!("order {id}"), creation_time: 10 }
}

fn solver(winner: Option<Bid>) -> Option<String> {
    winner.map(|bid| bid.solver_id)
}

#[test]
fn the_highest_output_wins() {
    let bids = vec![bid("a", 100, 1.2, 50), bid("b", 100, 1.5, 50), bid("c", 100, 1.3, 50)];
    assert_eq!(solver(pick_best(&bids, &vec![40, 40, 40])), Some("b".to_string()));
}

#[test]
fn a_bid_is_valid_up_to_its_last_second() {
    let bids = vec![bid("a", 100, 1.2, 50), bid("b", 100, 1.5, 50)];
    assert_eq!(solver(pick_best(&bids, &vec![50, 50])), Some("b".to_string()));
    assert_eq!(solver(pick_best(&bids, &vec![50, 51])), Some("a".to_string()));
    assert_eq!(solver(pick_best(&bids, &vec![51, 51])), None);
}

#[test]
fn of_equal_outputs_the_shorter_validity_wins_then_the_later_bid() {
    let bids = vec![
        bid("a", 100, 1.5, 60),
        bid("b", 100, 1.5, 50),
        bid("c", 50, 3.0, 50),
        bid("d", 100, 1.5, 70),
    ];
    assert_eq!(solver(pick_best(&bids, &vec![40, 40, 40, 40])), Some("c".to_string()));
}

#[test]
fn no_bids_no_winner() {
    assert_eq!(solver(pick_best(&vec![], &vec![])), None);
    assert_eq!(solver(pick_next_best(&vec![], &vec![], &"a".to_string())), None);
    assert_eq!(solver(OrderStateManager::new().select_best_bid(&7)), None);
    assert_eq!(solver(OrderStateManager::new().get_next_best_bid(&7, &"a".to_string())), None);
}

#[test]
fn a_failed_solver_is_passed_over_with_all_its_bids() {
    let bids = vec![
        bid("a", 100, 1.5, 60),
        bid("b", 100, 1.1, 60),
        bid("a", 100, 1.4, 60),
        bid("c", 100, 1.1, 50),
    ];
    let failed = "a".to_string();
    // Of equal outputs the later bid wins here, whatever its validity.
    assert_eq!(
        solver(pick_next_best(&bids, &vec![40, 40, 40, 40], &failed)),
        Some("c".to_string())
    );
    assert_eq!(
        solver(pick_next_best(&bids, &vec![55, 55, 55, 55], &failed)),
        Some("b".to_string())
    );
    assert_eq!(solver(pick_next_best(&bids, &vec![61, 61, 61, 61], &failed)), None);
}

#[test]
fn the_clock_judges_stored_bids() {
    let mut manager = OrderStateManager::new();
    manager.add_order(order(7));
    manager.create_order_batch(1);
    manager.add_bid(bid("expired", 100, 9.0, 1));
    manager.add_bid(bid("lasting", 100, 1.0, u64::MAX));
    manager.add_bid(bid("better", 100, 2.0, u64::MAX));
    assert_eq!(solver(manager.select_best_bid(&7)), Some("better".to_string()));
    assert_eq!(
        solver(manager.get_next_best_bid(&7, &"better".to_string())),
        Some("lasting".to_string())
    );
}

#[test]
fn bids_are_kept_for_orders_in_the_auction_only() {
    let mut manager = OrderStateManager::new();
    manager.add_bid(bid("a", 100, 1.0, 50));
    assert!(manager.received_bids.is_empty());
    manager.add_order(order(7));
    manager.add_bid(bid("a", 100, 1.0, 50));
    assert!(manager.received_bids.is_empty());
    manager.create_order_batch(5);
    manager.add_bid(bid("a", 100, 1.0, 50));
    manager.add_bid(bid("b", 100, 1.0, 50));
    let solvers: Vec<String> =
        manager.received_bids[&7].iter().map(|bid| bid.solver_id.clone()).collect();
    assert_eq!(solvers, vec!["a", "b"]);
}

#[test]
fn batches_take_the_oldest_orders_first() {
    let mut manager = OrderStateManager::default();
    for id in 1..=7 {
        manager.add_order(order(id));
    }
    let ids = |batch: Vec<Order>| batch.iter().map(|order| order.id).collect::<Vec<u64>>();
    assert_eq!(ids(manager.create_order_batch(0)), Vec::<u64>::new());
    assert_eq!(ids(manager.create_order_batch(5)), vec![1, 2, 3, 4, 5]);
    assert_eq!(manager.active_orders_in_auction.len(), 5);
    assert_eq!(manager.active_orders_in_auction[&3], order(3));
    assert_eq!(ids(manager.create_order_batch(5)), vec![6, 7]);
    assert_eq!(ids(manager.create_order_batch(5)), Vec::<u64>::new());
    assert_eq!(manager.active_orders_in_auction.len(), 7);
    assert!(manager.pending_orders.is_empty());
}

#[test]
fn an_order_with_a_used_id_replaces_the_earlier_one_in_the_auction() {
    let mut manager = OrderStateManager::new();
    manager.add_order(order(1));
    manager.add_order(Order { id: 1, description: "again".to_string(), creation_time: 11 });
    assert_eq!(manager.create_order_batch(5).len(), 2);
    assert_eq!(manager.active_orders_in_auction.len(), 1);
    assert_eq!(manager.active_orders_in_auction[&1].description, "again");
}

#[test]
fn the_readings_decide_the_selection() {
    let bids = vec![bid("a", 100, 1.5, 60), bid("b", 100, 1.5, 60), bid("c", 100, 1.2, 90)];
    for now in 50..100 {
        let readings = vec![now, now, now];
        let winner = pick_best(&bids, &readings);
        assert_eq!(winner, pick_best(&bids, &readings));
        let valid: Vec<&Bid> = bids.iter().filter(|bid| bid.valid_till >= now).collect();
        assert_eq!(winner.is_some(), !valid.is_empty());
        if let Some(winner) = winner {
            assert!(valid.iter().all(|bid| bid.min_output() <= winner.min_output()));
        }
    }
}
