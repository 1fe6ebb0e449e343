#![allow(non_snake_case)]

use exchange::matching::MatchingEngine;
use exchange::types::{Order, PartialOrder, Side};

fn order(price: u64, amount: u64, side: Side, signer: &str) -> Order {
    Order {
        price,
        amount,
        side,
        signer: signer.to_string(),
    }
}

#[test]
fn test_MatchingEngine_process_partially_match_order() {
    let mut matching_engine = MatchingEngine::new();

    let alice_receipt = matching_engine
        .process(Order {
            price: 10,
            amount: 1,
            side: Side::Sell,
            signer: "ALICE".to_string(),
        })
        .unwrap();
    assert_eq!(alice_receipt.matches, vec![]);
    assert_eq!(alice_receipt.ordinal, 1);

    let bob_receipt = matching_engine
        .process(Order {
            price: 10,
            amount: 2,
            side: Side::Buy,
            signer: "BOB".to_string(),
        })
        .unwrap();

    assert_eq!(
        bob_receipt.matches,
        vec![PartialOrder {
            price: 10,
            amount: 1,
            remaining: 0,
            side: Side::Sell,
            signer: "ALICE".to_string(),
            ordinal: 1
        }]
    );
    assert_eq!(bob_receipt.ordinal, 2);

    // Alice's order was fulfilled and should now be gone
    assert!(matching_engine.asks.is_empty());

    // A partial order for bob should still remain
    assert_eq!(matching_engine.bids.len(), 1);
}

#[test]
fn test_MatchingEngine_process_fully_match_order() {
    let mut matching_engine = MatchingEngine::new();

    let alice_receipt = matching_engine
        .process(Order {
            price: 10,
            amount: 2,
            side: Side::Sell,
            signer: "ALICE".to_string(),
        })
        .unwrap();
    assert_eq!(alice_receipt.matches, vec![]);
    assert_eq!(alice_receipt.ordinal, 1);

    let bob_receipt = matching_engine
        .process(Order {
            price: 10,
            amount: 2,
            side: Side::Buy,
            signer: "BOB".to_string(),
        })
        .unwrap();

    assert_eq!(
        bob_receipt.matches,
        vec![PartialOrder {
            price: 10,
            amount: 2,
            remaining: 0,
            side: Side::Sell,
            signer: "ALICE".to_string(),
            ordinal: 1
        }]
    );

    // A fully matched order doesn't remain in the book
    assert!(matching_engine.asks.is_empty());
    assert!(matching_engine.bids.is_empty());
}

#[test]
fn test_MatchingEngine_process_fully_match_order_multi_match() {
    let mut matching_engine = MatchingEngine::new();

    let alice_receipt = matching_engine
        .process(Order {
            price: 10,
            amount: 1,
            side: Side::Sell,
            signer: "ALICE".to_string(),
        })
        .unwrap();
    assert_eq!(alice_receipt.matches, vec![]);
    assert_eq!(alice_receipt.ordinal, 1);

    let charlie_receipt = matching_engine
        .process(Order {
            price: 10,
            amount: 1,
            side: Side::Sell,
            signer: "CHARLIE".to_string(),
        })
        .unwrap();
    assert_eq!(charlie_receipt.matches, vec![]);
    assert_eq!(charlie_receipt.ordinal, 2);

    let bob_receipt = matching_engine
        .process(Order {
            price: 10,
            amount: 2,
            side: Side::Buy,
            signer: "BOB".to_string(),
        })
        .unwrap();

    assert_eq!(
        bob_receipt.matches,
        vec![
            PartialOrder {
                price: 10,
                amount: 1,
                remaining: 0,
                side: Side::Sell,
                signer: "ALICE".to_string(),
                ordinal: 1
            },
            PartialOrder {
                price: 10,
                amount: 1,
                remaining: 0,
                side: Side::Sell,
                signer: "CHARLIE".to_string(),
                ordinal: 2
            }
        ]
    );
    // A fully matched order doesn't remain in the book
    assert!(matching_engine.asks.is_empty());
    assert!(matching_engine.bids.is_empty());
}

#[test]
fn test_MatchingEngine_process_fully_match_order_no_self_match() {
    let mut matching_engine = MatchingEngine::new();

    let alice_receipt = matching_engine
        .process(Order {
            price: 10,
            amount: 1,
            side: Side::Sell,
            signer: "ALICE".to_string(),
        })
        .unwrap();
    assert_eq!(alice_receipt.matches, vec![]);
    assert_eq!(alice_receipt.ordinal, 1);

    let charlie_receipt = matching_engine
        .process(Order {
            price: 10,
            amount: 1,
            side: Side::Sell,
            signer: "CHARLIE".to_string(),
        })
        .unwrap();
    assert_eq!(charlie_receipt.matches, vec![]);
    assert_eq!(charlie_receipt.ordinal, 2);

    let alice_receipt = matching_engine
        .process(Order {
            price: 10,
            amount: 2,
            side: Side::Buy,
            signer: "ALICE".to_string(),
        })
        .unwrap();

    assert_eq!(
        alice_receipt.matches,
        vec![PartialOrder {
            price: 10,
            amount: 1,
            remaining: 0,
            side: Side::Sell,
            signer: "CHARLIE".to_string(),
            ordinal: 2
        }]
    );
    // A fully matched order doesn't remain in the book
    assert_eq!(matching_engine.asks.len(), 1);
    assert_eq!(matching_engine.bids.len(), 1);
}

#[test]
fn test_MatchingEngine_process_no_match() {
    let mut matching_engine = MatchingEngine::new();

    let alice_receipt = matching_engine
        .process(Order {
            price: 10,
            amount: 2,
            side: Side::Sell,
            signer: "ALICE".to_string(),
        })
        .unwrap();
    assert_eq!(alice_receipt.matches, vec![]);
    assert_eq!(alice_receipt.ordinal, 1);

    let bob_receipt = matching_engine
        .process(Order {
            price: 11,
            amount: 2,
            side: Side::Sell,
            signer: "BOB".to_string(),
        })
        .unwrap();

    assert_eq!(bob_receipt.matches, vec![]);
    assert_eq!(matching_engine.asks.len(), 2);
}

#[test]
fn test_MatchingEngine_process_increment_ordinal_matching_engine() {
    let mut matching_engine = MatchingEngine::new();
    assert_eq!(matching_engine.ordinal, 0);
    let receipt = matching_engine
        .process(Order {
            price: 10,
            amount: 1,
            side: Side::Buy,
            signer: "ALICE".to_string(),
        })
        .unwrap();
    assert_eq!(receipt.ordinal, matching_engine.ordinal);

    let receipt = matching_engine
        .process(Order {
            price: 10,
            amount: 1,
            side: Side::Buy,
            signer: "BOB".to_string(),
        })
        .unwrap();
    assert_eq!(receipt.ordinal, matching_engine.ordinal);

    let receipt = matching_engine
        .process(Order {
            price: 10,
            amount: 1,
            side: Side::Buy,
            signer: "CHARLIE".to_string(),
        })
        .unwrap();
    assert_eq!(receipt.ordinal, matching_engine.ordinal);
    assert_eq!(matching_engine.ordinal, 3);
}

#[test]
fn best_price_is_matched_first() {
    let mut engine = MatchingEngine::new();
    engine.process(order(12, 1, Side::Sell, "A")).unwrap();
    engine.process(order(10, 1, Side::Sell, "B")).unwrap();
    engine.process(order(11, 1, Side::Sell, "C")).unwrap();
    // asks are kept best (lowest) price first
    let prices: Vec<u64> = engine.asks.iter().map(|l| l.price).collect();
    assert_eq!(prices, vec![10, 11, 12]);

    let receipt = engine.process(order(11, 3, Side::Buy, "D")).unwrap();
    let filled: Vec<(u64, String)> = receipt
        .matches
        .iter()
        .map(|m| (m.price, m.signer.clone()))
        .collect();
    assert_eq!(filled, vec![(10, "B".to_string()), (11, "C".to_string())]);
    // 12 does not cross the limit of 11; one unit of D rests at 11
    assert_eq!(engine.asks.len(), 1);
    assert_eq!(engine.asks[0].price, 12);
    assert_eq!(engine.bids.len(), 1);
    assert_eq!(engine.bids[0].price, 11);
    assert_eq!(engine.bids[0].orders[0].remaining, 1);
    assert_eq!(engine.bids[0].orders[0].amount, 1);
    assert_eq!(engine.bids[0].orders[0].ordinal, 4);
}

#[test]
fn sell_matches_highest_bid_first_and_oldest_at_a_price() {
    let mut engine = MatchingEngine::new();
    engine.process(order(9, 2, Side::Buy, "A")).unwrap();
    engine.process(order(10, 1, Side::Buy, "B")).unwrap();
    engine.process(order(9, 2, Side::Buy, "C")).unwrap();
    let prices: Vec<u64> = engine.bids.iter().map(|l| l.price).collect();
    assert_eq!(prices, vec![10, 9]);

    let receipt = engine.process(order(9, 2, Side::Sell, "D")).unwrap();
    assert_eq!(
        receipt.matches,
        vec![
            PartialOrder { price: 10, amount: 1, remaining: 0, side: Side::Buy, signer: "B".to_string(), ordinal: 2 },
            PartialOrder { price: 9, amount: 1, remaining: 1, side: Side::Buy, signer: "A".to_string(), ordinal: 1 },
        ]
    );
    // A keeps one unit at the front of the 9 level, C behind it
    assert_eq!(engine.bids.len(), 1);
    assert_eq!(engine.bids[0].orders.len(), 2);
    assert_eq!(engine.bids[0].orders[0].signer, "A");
    assert_eq!(engine.bids[0].orders[0].remaining, 1);
    assert_eq!(engine.bids[0].orders[0].amount, 2);
    assert_eq!(engine.bids[0].orders[1].signer, "C");
    assert!(engine.asks.is_empty());
    assert_eq!(engine.history.len(), 4);
    assert_eq!(engine.history[3], receipt);
}

#[test]
fn zero_amount_order_neither_matches_nor_rests() {
    let mut engine = MatchingEngine::new();
    engine.process(order(10, 1, Side::Sell, "A")).unwrap();
    let receipt = engine.process(order(10, 0, Side::Buy, "B")).unwrap();
    assert_eq!(receipt.matches, vec![]);
    assert_eq!(receipt.ordinal, 2);
    assert!(engine.bids.is_empty());
    assert_eq!(engine.asks.len(), 1);
}

#[test]
fn quantity_is_conserved() {
    let mut engine = MatchingEngine::new();
    engine.process(order(10, 3, Side::Sell, "A")).unwrap();
    engine.process(order(11, 4, Side::Sell, "B")).unwrap();
    let receipt = engine.process(order(11, 10, Side::Buy, "C")).unwrap();
    let filled: u64 = receipt.matches.iter().map(|m| m.amount).sum();
    assert_eq!(filled, 7);
    let resting: u64 = engine.bids.iter().flat_map(|l| l.orders.iter()).map(|o| o.remaining).sum();
    assert_eq!(filled + resting, 10);
}

#[test]
fn book_crosses_only_within_one_signer_and_ordinals_stay_distinct() {
    let mut engine = MatchingEngine::new();
    engine.process(order(10, 1, Side::Sell, "ALICE")).unwrap();
    engine.process(order(10, 2, Side::Sell, "BOB")).unwrap();
    // ALICE's buy skips her own ask, fills BOB's and rests at 10
    engine.process(order(10, 3, Side::Buy, "ALICE")).unwrap();
    for bid in engine.bids.iter().flat_map(|l| l.orders.iter()) {
        for ask in engine.asks.iter().flat_map(|l| l.orders.iter()) {
            if bid.price >= ask.price {
                assert_eq!(bid.signer, ask.signer);
            }
        }
    }
    let mut ordinals: Vec<u64> = engine
        .bids
        .iter()
        .chain(engine.asks.iter())
        .flat_map(|l| l.orders.iter().map(|o| o.ordinal))
        .collect();
    let count = ordinals.len();
    ordinals.sort();
    ordinals.dedup();
    assert_eq!(ordinals.len(), count);
    assert_eq!(count, 2);
}
