use order_auction::broadcast::{
    listen_on, Broadcast, BroadcastStep, Delivery, LineRead, Listening,
};
use order_auction::rate::ConversionRate;
use order_auction::solver::{
    bidding_rng, claim_after_work, draw_bid_duration, draw_max_input, draw_work_duration, make_bid,
    react, Reaction,
};
use order_auction::types::{
    Commitment, Order, SequencerToSolverMessage, SolverToSequencerMessage,
};
use order_auction::wire::{frame, is_white_space, trim_line, unframe};
use rand::rngs::SmallRng;
use rand::{Rng, SeedableRng};
use std::io::BufRead;

fn commitment(solver: &str) -> Commitment {
    Commitment {
        order_id: 4,
        solver_id: solver.to_string(),
        input_amount: 100,
        min_output_amount: 120,
        deadline: 50,
    }
}

#[test]
fn a_solver_works_on_its_own_commitments_only() {
    let me = "s1".to_string();
    let orders = vec![Order { id: 1, description: "x".to_string(), creation_time: 2 }];
    let batch = SequencerToSolverMessage::NewOrderBatch(orders.clone());
    assert!(matches!(react(&me, batch), Reaction::Consider(batch) if batch == orders));
    let mine = SequencerToSolverMessage::CommitmentNotification(commitment("s1"));
    assert!(matches!(react(&me, mine), Reaction::Work(c) if c == commitment("s1")));
    let other = SequencerToSolverMessage::CommitmentNotification(commitment("s2"));
    assert!(matches!(react(&me, other), Reaction::Ignore(c) if c == commitment("s2")));
    let closed = SequencerToSolverMessage::AuctionClosedNoWinner(9);
    assert!(matches!(react(&me, closed), Reaction::NoWinner(9)));
}

#[test]
fn draws_lie_in_their_ranges_and_vary() {
    let mut inputs = Vec::new();
    let mut durations = Vec::new();
    for id in 0..200 {
        let mut rng = bidding_rng(id);
        let input = draw_max_input(&mut rng);
        let duration = draw_bid_duration(&mut rng);
        assert!((50..200).contains(&input));
        assert!((15..60).contains(&duration));
        inputs.push(input);
        durations.push(duration);
    }
    inputs.sort();
    inputs.dedup();
    durations.sort();
    durations.dedup();
    assert!(inputs.len() > 50 && durations.len() > 20);
}

#[test]
fn draws_are_those_of_the_seeded_generator() {
    for id in 0..50 {
        let mut expected = SmallRng::seed_from_u64(id);
        let mut rng = bidding_rng(id);
        assert_eq!(draw_max_input(&mut rng), expected.gen_range(50u64..200));
        assert_eq!(draw_bid_duration(&mut rng), expected.gen_range(15u64..60));
        let work = SmallRng::seed_from_u64(id).gen_range(1u64..9);
        assert_eq!(draw_work_duration(id, 110, 100), work);
    }
    assert_eq!(draw_work_duration(1, 103, 100), 1);
}

#[test]
fn a_bid_carries_what_was_drawn() {
    let rate = ConversionRate::from_bits(1.1f64.to_bits());
    let bid = make_bid(3, &"s1".to_string(), 150, rate, 20, 1000);
    assert_eq!(bid.order_id, 3);
    assert_eq!(bid.solver_id, "s1");
    assert_eq!(bid.max_input, 150);
    assert!(bid.conversion_rate == rate);
    assert_eq!(bid.valid_till, 1020);
    assert_eq!(bid.min_output(), 165);
}

#[test]
fn claims_are_sent_before_the_deadline_only() {
    let me = "s1".to_string();
    match claim_after_work(&commitment("s1"), &me, 49) {
        Some(SolverToSequencerMessage::FulfillmentComplete { order_id, solver_id }) => {
            assert_eq!((order_id, solver_id), (4, me.clone()));
        }
        other => panic!("{other:?}"),
    }
    assert!(claim_after_work(&commitment("s1"), &me, 50).is_none());
    assert!(claim_after_work(&commitment("s1"), &me, 51).is_none());
}

#[test]
fn white_space_is_the_unicode_property() {
    for code in 0..=0x10ffff {
        if let Some(c) = char::from_u32(code) {
            assert_eq!(is_white_space(c), c.is_whitespace(), "{code:x}");
        }
    }
}

#[test]
fn lines_are_trimmed() {
    let lines = [
        "", " ", "\n", "a", " a", "a ", "  a b\t\r\n", "\u{3000}x\u{a0}y\u{2003}", "\u{200b}z ",
        "{\"AuctionClosedNoWinner\":7}\n",
    ];
    for line in lines {
        assert_eq!(trim_line(line), line.trim());
    }
}

#[test]
fn a_frame_is_one_line_and_comes_back() {
    let text = "{\"AuctionClosedNoWinner\":7}".to_string();
    let line = frame(text.clone());
    assert_eq!(line, "{\"AuctionClosedNoWinner\":7}\n");
    assert_eq!(unframe(line.len(), &line), Some(text.as_str()));
    assert_eq!(unframe(4, " é \n"), Some("é"));
    assert_eq!(unframe(0, ""), None);
    assert_eq!(unframe(0, "text"), None);
    assert_eq!(unframe(1, "\n"), None);
    assert_eq!(unframe(3, " \t\n"), None);
}

#[test]
fn a_broadcast_serves_each_connection_and_gives_up_the_lost_ones() {
    let mut broadcast = Broadcast::new(vec![11u32, 12, 13, 14]);
    let deliveries = [Delivery::Sent, Delivery::Failed, Delivery::Missing, Delivery::Sent];
    let mut kept = Vec::new();
    for delivery in deliveries {
        match broadcast.next_step() {
            BroadcastStep::Send(target) => {
                if broadcast.report(delivery) {
                    kept.push(target);
                }
            }
            other => panic!("{other:?}"),
        }
    }
    assert_eq!(kept, vec![11, 14]);
    assert!(matches!(broadcast.next_step(), BroadcastStep::GiveUp(gone) if gone == vec![12, 13]));
    let empty: Broadcast<u32> = Broadcast::new(Vec::new());
    assert!(matches!(empty.next_step(), BroadcastStep::GiveUp(gone) if gone.is_empty()));
}

#[test]
fn a_lost_connection_is_not_tried_again() {
    let mut connections = vec![21u32, 22, 23];
    let mut handed: Vec<(u32, &str)> = Vec::new();
    for (message, fails) in [("m1", Some(22)), ("m2", None)] {
        let mut broadcast = Broadcast::new(connections.clone());
        loop {
            match broadcast.next_step() {
                BroadcastStep::Send(target) => {
                    handed.push((target, message));
                    let failed = fails == Some(target);
                    let delivery = if failed { Delivery::Failed } else { Delivery::Sent };
                    assert_eq!(broadcast.report(delivery), !failed);
                }
                BroadcastStep::GiveUp(gone) => {
                    connections.retain(|key| !gone.contains(key));
                    break;
                }
            }
        }
        assert_eq!(connections, vec![21, 23]);
    }
    let over = |key: u32| {
        let all = handed.iter().filter(|(target, _)| *target == key);
        all.map(|(_, message)| *message).collect::<Vec<_>>()
    };
    assert_eq!(over(21), vec!["m1", "m2"]);
    assert_eq!(over(22), vec!["m1"]);
    assert_eq!(over(23), vec!["m1", "m2"]);
}

#[test]
fn a_stream_of_messages_comes_back_in_order() {
    // The JSON of a description that holds a line break is still one line.
    let texts = [
        serde_json::to_string("a\nb").unwrap(),
        "{\"AuctionClosedNoWinner\":7}".to_string(),
        "{\"AuctionClosedNoWinner\":7}".to_string(),
        "{\"NewOrderBatch\":[]}".to_string(),
    ];
    let stream: String = texts.iter().map(|text| frame(text.clone())).collect();
    let mut reader = stream.as_bytes();
    for text in &texts {
        let mut line = String::new();
        let count = reader.read_line(&mut line).unwrap();
        assert_eq!(unframe(count, &line), Some(text.as_str()));
    }
    let mut line = String::new();
    let count = reader.read_line(&mut line).unwrap();
    assert_eq!(unframe(count, &line), None);
}

#[test]
fn listening_ends_with_the_connection() {
    assert_eq!(listen_on(LineRead::Bytes(0)), Listening::Disconnected);
    assert_eq!(listen_on(LineRead::Bytes(1)), Listening::Continue);
    assert_eq!(listen_on(LineRead::Failed), Listening::Broken);
}
