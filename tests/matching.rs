#![allow(non_snake_case)]

use exchange::matching::MatchingEngine;
use exchange::models::{Order, PartialOrder, Side};

fn order(price: u64, amount: u64, side: Side, signer: &str) -> Order {
    Order {
        price,
        amount,
        side,
        signer: signer.to_string(),
    }
}

fn fill(price: u64, amount: u64, remaining: u64, side: Side, signer: &str, ordinal: u64) -> PartialOrder {
    PartialOrder {
        price,
        amount,
        remaining,
        side,
        signer: signer.to_string(),
        ordinal,
    }
}

#[test]
fn test_MatchingEngine_process_partially_match_order() {
    let mut matching_engine = MatchingEngine::new();

    let alice_receipt = matching_engine.process(Order {
        price: 10,
        amount: 1,
        side: Side::Sell,
        signer: "ALICE".to_string(),
    });
    assert_eq!(alice_receipt.matches, vec![]);
    assert_eq!(alice_receipt.ordinal, 1);

    let bob_receipt = matching_engine.process(Order {
        price: 10,
        amount: 2,
        side: Side::Buy,
        signer: "BOB".to_string(),
    });
    assert_eq!(
        bob_receipt.matches,
        vec![PartialOrder {
            price: 10,
            amount: 1,
            remaining: 0,
            side: Side::Sell,
            signer: "ALICE".to_string(),
            ordinal: 1
        }]
    );
    assert_eq!(bob_receipt.ordinal, 2);

    assert!(matching_engine.asks.is_empty());
    assert_eq!(matching_engine.bids.len(), 1);
    assert_eq!(matching_engine.get_amount_at_price_level(10, Side::Buy), 1);
}

#[test]
fn test_MatchingEngine_process_fully_match_order() {
    let mut matching_engine = MatchingEngine::new();

    let alice_receipt = matching_engine.process(Order {
        price: 10,
        amount: 2,
        side: Side::Sell,
        signer: "ALICE".to_string(),
    });
    assert_eq!(alice_receipt.matches, vec![]);
    assert_eq!(alice_receipt.ordinal, 1);

    let bob_receipt = matching_engine.process(Order {
        price: 10,
        amount: 2,
        side: Side::Buy,
        signer: "BOB".to_string(),
    });

    assert_eq!(
        bob_receipt.matches,
        vec![PartialOrder {
            price: 10,
            amount: 2,
            remaining: 0,
            side: Side::Sell,
            signer: "ALICE".to_string(),
            ordinal: 1
        }]
    );

    assert!(matching_engine.asks.is_empty());
    assert!(matching_engine.bids.is_empty());
}

#[test]
fn test_MatchingEngine_process_fully_match_order_multi_match() {
    let mut matching_engine = MatchingEngine::new();

    let alice_receipt = matching_engine.process(Order {
        price: 10,
        amount: 1,
        side: Side::Sell,
        signer: "ALICE".to_string(),
    });
    assert_eq!(alice_receipt.matches, vec![]);
    assert_eq!(alice_receipt.ordinal, 1);

    let charlie_receipt = matching_engine.process(Order {
        price: 10,
        amount: 1,
        side: Side::Sell,
        signer: "CHARLIE".to_string(),
    });
    assert_eq!(charlie_receipt.matches, vec![]);
    assert_eq!(charlie_receipt.ordinal, 2);

    let bob_receipt = matching_engine.process(Order {
        price: 10,
        amount: 2,
        side: Side::Buy,
        signer: "BOB".to_string(),
    });

    assert_eq!(
        bob_receipt.matches,
        vec![
            PartialOrder {
                price: 10,
                amount: 1,
                remaining: 0,
                side: Side::Sell,
                signer: "ALICE".to_string(),
                ordinal: 1
            },
            PartialOrder {
                price: 10,
                amount: 1,
                remaining: 0,
                side: Side::Sell,
                signer: "CHARLIE".to_string(),
                ordinal: 2
            }
        ]
    );
    assert!(matching_engine.asks.is_empty());
    assert!(matching_engine.bids.is_empty());
}

#[test]
fn test_MatchingEngine_process_fully_match_order_no_self_match() {
    let mut matching_engine = MatchingEngine::new();

    let alice_receipt_sell = matching_engine.process(Order {
        price: 10,
        amount: 1,
        side: Side::Sell,
        signer: "ALICE".to_string(),
    });
    assert_eq!(alice_receipt_sell.matches, vec![]);
    assert_eq!(alice_receipt_sell.ordinal, 1);

    let charlie_receipt = matching_engine.process(Order {
        price: 10,
        amount: 1,
        side: Side::Sell,
        signer: "CHARLIE".to_string(),
    });
    assert_eq!(charlie_receipt.matches, vec![]);
    assert_eq!(charlie_receipt.ordinal, 2);

    let alice_receipt_buy = matching_engine.process(Order {
        price: 10,
        amount: 2,
        side: Side::Buy,
        signer: "ALICE".to_string(),
    });

    assert_eq!(
        alice_receipt_buy.matches,
        vec![PartialOrder {
            price: 10,
            amount: 1,
            remaining: 0,
            side: Side::Sell,
            signer: "CHARLIE".to_string(),
            ordinal: 2
        }]
    );

    assert_eq!(matching_engine.asks.len(), 1);
    assert_eq!(matching_engine.get_amount_at_price_level(10, Side::Sell), 1);
    assert_eq!(matching_engine.bids.len(), 1);
    assert_eq!(matching_engine.get_amount_at_price_level(10, Side::Buy), 1);
}

#[test]
fn test_MatchingEngine_process_no_match() {
    let mut matching_engine = MatchingEngine::new();

    let alice_receipt = matching_engine.process(Order {
        price: 10,
        amount: 2,
        side: Side::Sell,
        signer: "ALICE".to_string(),
    });
    assert_eq!(alice_receipt.matches, vec![]);
    assert_eq!(alice_receipt.ordinal, 1);

    let bob_receipt = matching_engine.process(Order {
        price: 11,
        amount: 2,
        side: Side::Sell,
        signer: "BOB".to_string(),
    });

    assert_eq!(bob_receipt.matches, vec![]);
    assert_eq!(matching_engine.asks.len(), 2);

    assert_eq!(matching_engine.get_amount_at_price_level(10, Side::Sell), 2);
    assert_eq!(matching_engine.get_amount_at_price_level(11, Side::Sell), 2);
}

#[test]
fn test_MatchingEngine_process_increment_ordinal_matching_engine() {
    let mut matching_engine = MatchingEngine::new();
    assert_eq!(matching_engine.ordinal, 0);
    let receipt = matching_engine.process(Order {
        price: 10,
        amount: 1,
        side: Side::Buy,
        signer: "ALICE".to_string(),
    });
    assert_eq!(receipt.ordinal, matching_engine.ordinal);

    let receipt = matching_engine.process(Order {
        price: 10,
        amount: 1,
        side: Side::Buy,
        signer: "BOB".to_string(),
    });
    assert_eq!(receipt.ordinal, matching_engine.ordinal);

    let receipt = matching_engine.process(Order {
        price: 10,
        amount: 1,
        side: Side::Buy,
        signer: "CHARLIE".to_string(),
    });
    assert_eq!(receipt.ordinal, matching_engine.ordinal);
    assert_eq!(matching_engine.ordinal, 3);
}

#[test]
fn amount_at_a_level_is_the_sum_of_resting_quantities() {
    let mut engine = MatchingEngine::new();
    engine.process(order(10, 3, Side::Buy, "A"));
    engine.process(order(10, 4, Side::Buy, "B"));
    engine.process(order(9, 5, Side::Buy, "C"));
    assert_eq!(engine.get_amount_at_price_level(10, Side::Buy), 7);
    assert_eq!(engine.get_amount_at_price_level(9, Side::Buy), 5);
    assert_eq!(engine.get_amount_at_price_level(10, Side::Sell), 0);
    assert_eq!(engine.get_amount_at_price_level(8, Side::Buy), 0);
    engine.process(order(10, 5, Side::Sell, "D"));
    assert_eq!(engine.get_amount_at_price_level(10, Side::Buy), 2);
}

#[test]
fn amount_at_a_level_does_not_overflow() {
    let mut engine = MatchingEngine::new();
    engine.process(order(10, u64::MAX, Side::Sell, "A"));
    engine.process(order(10, u64::MAX, Side::Sell, "B"));
    assert_eq!(
        engine.get_amount_at_price_level(10, Side::Sell),
        2 * (u64::MAX as u128)
    );
}

#[test]
fn unmatched_part_of_a_partial_fill_rests_on_own_side() {
    let mut engine = MatchingEngine::new();
    engine.process(order(10, 3, Side::Buy, "A"));
    let receipt = engine.process(order(10, 5, Side::Sell, "B"));
    let matched: u64 = receipt.matches.iter().map(|m| m.amount).sum();
    assert_eq!(matched, 3);
    assert_eq!(engine.get_amount_at_price_level(10, Side::Sell), 2);
    assert!(engine.bids.is_empty());
    assert_eq!(engine.asks[0].orders[0].amount, 5);
    assert_eq!(engine.asks[0].orders[0].remaining, 2);
    assert_eq!(engine.asks[0].orders[0].ordinal, 2);
}

#[test]
fn resting_order_partially_consumed_keeps_its_place() {
    let mut engine = MatchingEngine::new();
    engine.process(order(10, 5, Side::Sell, "A"));
    engine.process(order(10, 5, Side::Sell, "B"));
    let receipt = engine.process(order(10, 2, Side::Buy, "C"));
    assert_eq!(receipt.matches, vec![fill(10, 2, 3, Side::Sell, "A", 1)]);
    let receipt = engine.process(order(10, 4, Side::Buy, "D"));
    assert_eq!(
        receipt.matches,
        vec![
            fill(10, 3, 0, Side::Sell, "A", 1),
            fill(10, 1, 4, Side::Sell, "B", 2)
        ]
    );
    assert_eq!(engine.get_amount_at_price_level(10, Side::Sell), 4);
    assert!(engine.bids.is_empty());
}

#[test]
fn buy_takes_lowest_ask_first_and_stops_at_its_limit() {
    let mut engine = MatchingEngine::new();
    engine.process(order(12, 1, Side::Sell, "A"));
    engine.process(order(10, 1, Side::Sell, "B"));
    engine.process(order(11, 1, Side::Sell, "C"));
    let receipt = engine.process(order(11, 5, Side::Buy, "D"));
    assert_eq!(
        receipt.matches,
        vec![
            fill(10, 1, 0, Side::Sell, "B", 2),
            fill(11, 1, 0, Side::Sell, "C", 3)
        ]
    );
    assert_eq!(engine.get_amount_at_price_level(12, Side::Sell), 1);
    assert_eq!(engine.get_amount_at_price_level(11, Side::Buy), 3);
}

#[test]
fn sell_takes_highest_bid_first_and_stops_at_its_limit() {
    let mut engine = MatchingEngine::new();
    engine.process(order(8, 1, Side::Buy, "A"));
    engine.process(order(10, 1, Side::Buy, "B"));
    engine.process(order(9, 1, Side::Buy, "C"));
    let receipt = engine.process(order(9, 5, Side::Sell, "D"));
    assert_eq!(
        receipt.matches,
        vec![
            fill(10, 1, 0, Side::Buy, "B", 2),
            fill(9, 1, 0, Side::Buy, "C", 3)
        ]
    );
    assert_eq!(engine.get_amount_at_price_level(8, Side::Buy), 1);
    assert_eq!(engine.get_amount_at_price_level(9, Side::Sell), 3);
}

#[test]
fn fill_reports_the_resting_level_price() {
    let mut engine = MatchingEngine::new();
    engine.process(order(7, 2, Side::Sell, "A"));
    let receipt = engine.process(order(9, 2, Side::Buy, "B"));
    assert_eq!(receipt.matches, vec![fill(7, 2, 0, Side::Sell, "A", 1)]);
    assert!(engine.asks.is_empty());
    assert!(engine.bids.is_empty());
}

#[test]
fn self_trade_is_skipped_and_keeps_its_priority() {
    let mut engine = MatchingEngine::new();
    engine.process(order(10, 1, Side::Sell, "A"));
    engine.process(order(10, 1, Side::Sell, "B"));
    let receipt = engine.process(order(10, 1, Side::Buy, "A"));
    assert_eq!(receipt.matches, vec![fill(10, 1, 0, Side::Sell, "B", 2)]);
    let receipt = engine.process(order(10, 1, Side::Buy, "C"));
    assert_eq!(receipt.matches, vec![fill(10, 1, 0, Side::Sell, "A", 1)]);
    assert!(engine.asks.is_empty());
    assert!(engine.bids.is_empty());
}

#[test]
fn receipts_are_logged_in_call_order() {
    let mut engine = MatchingEngine::new();
    let first = engine.process(order(10, 1, Side::Sell, "A"));
    let second = engine.process(order(10, 1, Side::Buy, "B"));
    assert_eq!(engine.matches, vec![first, second]);
    assert_eq!(engine.matches[1].matches.len(), 1);
}

#[test]
fn default_engine_is_empty() {
    let engine = MatchingEngine::default();
    assert_eq!(engine.ordinal, 0);
    assert!(engine.bids.is_empty());
    assert!(engine.asks.is_empty());
    assert!(engine.matches.is_empty());
}

#[test]
fn zero_amount_order_is_a_numbered_no_op() {
    let mut engine = MatchingEngine::new();
    engine.process(order(10, 1, Side::Sell, "A"));
    let receipt = engine.process(order(10, 0, Side::Buy, "B"));
    assert_eq!(receipt.ordinal, 2);
    assert!(receipt.matches.is_empty());
    assert!(engine.bids.is_empty());
    assert_eq!(engine.get_amount_at_price_level(10, Side::Sell), 1);
}
