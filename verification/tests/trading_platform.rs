#![allow(non_snake_case)]

use exchange::trading_platform::TradingPlatform;
use exchange::types::{ApplicationError, Order, PartialOrder, Side, Tx};

#[test]
fn test_TradingPlatform_order_requires_deposit_to_order() {
    let mut trading_platform = TradingPlatform::new();

    assert_eq!(
        trading_platform.order(Order {
            price: 10,
            amount: 1,
            side: Side::Sell,
            signer: "ALICE".to_string(),
        }),
        Err(ApplicationError::AccountNotFound("ALICE".to_string()))
    );
    assert!(trading_platform.matching_engine.asks.is_empty());
    assert!(trading_platform.matching_engine.bids.is_empty());
}

#[test]
fn test_TradingPlatform_order_partially_match_order_updates_accounts() {
    let mut trading_platform = TradingPlatform::new();

    // Set up accounts
    assert!(trading_platform.accounts.deposit("ALICE", 100).is_ok());
    assert!(trading_platform.accounts.deposit("BOB", 100).is_ok());

    let alice_receipt = trading_platform
        .order(Order {
            price: 10,
            amount: 1,
            side: Side::Sell,
            signer: "ALICE".to_string(),
        })
        .unwrap();
    assert_eq!(alice_receipt.matches, vec![]);
    assert_eq!(alice_receipt.ordinal, 1);

    let bob_receipt = trading_platform
        .order(Order {
            price: 10,
            amount: 2,
            side: Side::Buy,
            signer: "BOB".to_string(),
        })
        .unwrap();

    assert_eq!(
        bob_receipt.matches,
        vec![PartialOrder {
            price: 10,
            amount: 1,
            remaining: 0,
            side: Side::Sell,
            signer: "ALICE".to_string(),
            ordinal: 1
        }]
    );
    assert!(trading_platform.matching_engine.asks.is_empty());
    assert_eq!(trading_platform.matching_engine.bids.len(), 1);

    // Check the account balances
    assert_eq!(trading_platform.accounts.balance_of("ALICE"), Ok(&110));
    assert_eq!(trading_platform.accounts.balance_of("BOB"), Ok(&90));
}

#[test]
fn test_TradingPlatform_order_fully_match_order_updates_accounts() {
    let mut trading_platform = TradingPlatform::new();

    // Set up accounts
    assert!(trading_platform.accounts.deposit("ALICE", 100).is_ok());
    assert!(trading_platform.accounts.deposit("BOB", 100).is_ok());

    let alice_receipt = trading_platform
        .order(Order {
            price: 10,
            amount: 2,
            side: Side::Sell,
            signer: "ALICE".to_string(),
        })
        .unwrap();
    assert_eq!(alice_receipt.matches, vec![]);
    assert_eq!(alice_receipt.ordinal, 1);

    let bob_receipt = trading_platform
        .order(Order {
            price: 10,
            amount: 2,
            side: Side::Buy,
            signer: "BOB".to_string(),
        })
        .unwrap();

    assert_eq!(
        bob_receipt.matches,
        vec![PartialOrder {
            price: 10,
            amount: 2,
            remaining: 0,
            side: Side::Sell,
            signer: "ALICE".to_string(),
            ordinal: 1
        }]
    );

    // A fully matched order doesn't remain in the book
    assert!(trading_platform.matching_engine.asks.is_empty());
    assert!(trading_platform.matching_engine.bids.is_empty());

    // Check the account balances
    assert_eq!(trading_platform.accounts.balance_of("ALICE"), Ok(&120));
    assert_eq!(trading_platform.accounts.balance_of("BOB"), Ok(&80));
}

#[test]
fn test_TradingPlatform_order_fully_match_order_multi_match_updates_accounts() {
    let mut trading_platform = TradingPlatform::new();

    // Set up accounts
    assert!(trading_platform.accounts.deposit("ALICE", 100).is_ok());
    assert!(trading_platform.accounts.deposit("BOB", 100).is_ok());
    assert!(trading_platform.accounts.deposit("CHARLIE", 100).is_ok());

    let alice_receipt = trading_platform
        .order(Order {
            price: 10,
            amount: 1,
            side: Side::Sell,
            signer: "ALICE".to_string(),
        })
        .unwrap();
    assert_eq!(alice_receipt.matches, vec![]);
    assert_eq!(alice_receipt.ordinal, 1);

    let charlie_receipt = trading_platform
        .order(Order {
            price: 10,
            amount: 1,
            side: Side::Sell,
            signer: "CHARLIE".to_string(),
        })
        .unwrap();
    assert_eq!(charlie_receipt.matches, vec![]);
    assert_eq!(charlie_receipt.ordinal, 2);

    let bob_receipt = trading_platform
        .order(Order {
            price: 10,
            amount: 2,
            side: Side::Buy,
            signer: "BOB".to_string(),
        })
        .unwrap();

    assert_eq!(
        bob_receipt.matches,
        vec![
            PartialOrder {
                price: 10,
                amount: 1,
                remaining: 0,
                side: Side::Sell,
                signer: "ALICE".to_string(),
                ordinal: 1
            },
            PartialOrder {
                price: 10,
                amount: 1,
                remaining: 0,
                side: Side::Sell,
                signer: "CHARLIE".to_string(),
                ordinal: 2
            }
        ]
    );
    // A fully matched order doesn't remain in the book
    assert!(trading_platform.matching_engine.asks.is_empty());
    assert!(trading_platform.matching_engine.bids.is_empty());

    // Check account balances
    assert_eq!(trading_platform.accounts.balance_of("ALICE"), Ok(&110));
    assert_eq!(trading_platform.accounts.balance_of("BOB"), Ok(&80));
    assert_eq!(trading_platform.accounts.balance_of("CHARLIE"), Ok(&110));
}

#[test]
fn test_TradingPlatform_order_fully_match_order_no_self_match_updates_accounts() {
    let mut trading_platform = TradingPlatform::new();

    // Set up accounts
    assert!(trading_platform.accounts.deposit("ALICE", 100).is_ok());
    assert!(trading_platform.accounts.deposit("CHARLIE", 100).is_ok());

    let alice_receipt = trading_platform
        .order(Order {
            price: 10,
            amount: 1,
            side: Side::Sell,
            signer: "ALICE".to_string(),
        })
        .unwrap();
    assert_eq!(alice_receipt.matches, vec![]);
    assert_eq!(alice_receipt.ordinal, 1);

    let charlie_receipt = trading_platform
        .order(Order {
            price: 10,
            amount: 1,
            side: Side::Sell,
            signer: "CHARLIE".to_string(),
        })
        .unwrap();
    assert_eq!(charlie_receipt.matches, vec![]);
    assert_eq!(charlie_receipt.ordinal, 2);

    let bob_receipt = trading_platform
        .order(Order {
            price: 10,
            amount: 2,
            side: Side::Buy,
            signer: "ALICE".to_string(),
        })
        .unwrap();

    assert_eq!(
        bob_receipt.matches,
        vec![PartialOrder {
            price: 10,
            amount: 1,
            remaining: 0,
            side: Side::Sell,
            signer: "CHARLIE".to_string(),
            ordinal: 2
        }]
    );
    // A fully matched order doesn't remain in the book
    assert_eq!(trading_platform.matching_engine.asks.len(), 1);
    assert_eq!(trading_platform.matching_engine.bids.len(), 1);
    // Check account balances
    assert_eq!(trading_platform.accounts.balance_of("ALICE"), Ok(&90));
    assert_eq!(trading_platform.accounts.balance_of("CHARLIE"), Ok(&110));
}

#[test]
fn test_TradingPlatform_order_no_match_updates_accounts() {
    let mut trading_platform = TradingPlatform::new();

    // Set up accounts
    assert!(trading_platform.accounts.deposit("ALICE", 100).is_ok());
    assert!(trading_platform.accounts.deposit("BOB", 100).is_ok());

    let alice_receipt = trading_platform
        .order(Order {
            price: 10,
            amount: 2,
            side: Side::Sell,
            signer: "ALICE".to_string(),
        })
        .unwrap();
    assert_eq!(alice_receipt.matches, vec![]);
    assert_eq!(alice_receipt.ordinal, 1);

    let bob_receipt = trading_platform
        .order(Order {
            price: 11,
            amount: 2,
            side: Side::Sell,
            signer: "BOB".to_string(),
        })
        .unwrap();

    assert_eq!(bob_receipt.matches, vec![]);
    assert_eq!(trading_platform.orderbook().len(), 2);

    // Check the account balances
    assert_eq!(trading_platform.accounts.balance_of("ALICE"), Ok(&100));
    assert_eq!(trading_platform.accounts.balance_of("BOB"), Ok(&100));
}

#[test]
fn underfunded_buy_is_refused_with_the_balance() {
    let mut platform = TradingPlatform::new();
    platform.deposit("BOB", 15).unwrap();
    let refused = platform.order(Order {
        price: 10,
        amount: 2,
        side: Side::Buy,
        signer: "BOB".to_string(),
    });
    assert_eq!(refused, Err(ApplicationError::AccountUnderFunded("BOB".to_string(), 15)));
    assert!(platform.matching_engine.bids.is_empty());
    assert_eq!(platform.matching_engine.ordinal, 0);
    assert_eq!(platform.transaction_log.len(), 1);
}

#[test]
fn platform_logs_deposits_withdrawals_and_transfers() {
    let mut platform = TradingPlatform::new();
    platform.deposit("A", 50).unwrap();
    platform.deposit("B", 0).unwrap();
    platform.withdraw("A", 5).unwrap();
    assert!(platform.withdraw("A", 100).is_err());
    platform.send("A", "B", 20).unwrap();
    assert_eq!(
        platform.transaction_log,
        vec![
            Tx::Deposit { account: "A".to_string(), amount: 50 },
            Tx::Deposit { account: "B".to_string(), amount: 0 },
            Tx::Withdraw { account: "A".to_string(), amount: 5 },
            Tx::Withdraw { account: "A".to_string(), amount: 20 },
            Tx::Deposit { account: "B".to_string(), amount: 20 },
        ]
    );
    assert_eq!(platform.balance_of("A"), Ok(&25));
    assert_eq!(platform.balance_of("B"), Ok(&20));
}

#[test]
fn settlement_logs_each_fill_and_moves_its_price() {
    let mut platform = TradingPlatform::new();
    platform.deposit("S", 0).unwrap();
    platform.deposit("T", 0).unwrap();
    platform.deposit("B", 100).unwrap();
    platform.order(Order { price: 7, amount: 2, side: Side::Sell, signer: "S".to_string() }).unwrap();
    platform.order(Order { price: 8, amount: 3, side: Side::Sell, signer: "T".to_string() }).unwrap();
    let receipt = platform
        .order(Order { price: 8, amount: 4, side: Side::Buy, signer: "B".to_string() })
        .unwrap();
    assert_eq!(receipt.matches.len(), 2);
    // 2 * 7 + 2 * 8 = 30 paid by the buyer
    assert_eq!(platform.balance_of("B"), Ok(&70));
    assert_eq!(platform.balance_of("S"), Ok(&14));
    assert_eq!(platform.balance_of("T"), Ok(&16));
    assert_eq!(platform.transaction_log.len(), 3 + 4);
    assert_eq!(
        platform.transaction_log[3..].to_vec(),
        vec![
            Tx::Withdraw { account: "B".to_string(), amount: 14 },
            Tx::Deposit { account: "S".to_string(), amount: 14 },
            Tx::Withdraw { account: "B".to_string(), amount: 16 },
            Tx::Deposit { account: "T".to_string(), amount: 16 },
        ]
    );
}

#[test]
fn failed_settlement_keeps_the_book_and_earlier_transfers() {
    let mut platform = TradingPlatform::new();
    platform.deposit("B", 10).unwrap();
    platform.deposit("S", 0).unwrap();
    // B bids for 1 at 10, then spends the money
    platform.order(Order { price: 10, amount: 1, side: Side::Buy, signer: "B".to_string() }).unwrap();
    platform.withdraw("B", 10).unwrap();
    // S sells into B's bid: B cannot pay, so the transfer is refused
    let refused = platform.order(Order { price: 10, amount: 1, side: Side::Sell, signer: "S".to_string() });
    assert_eq!(refused, Err(ApplicationError::AccountNotFound("S".to_string())));
    // the match still happened in the book
    assert!(platform.matching_engine.bids.is_empty());
    assert_eq!(platform.matching_engine.history.len(), 2);
    assert_eq!(platform.balance_of("S"), Ok(&0));
}

#[test]
fn orderbook_lists_bids_then_asks_by_increasing_price() {
    let mut platform = TradingPlatform::new();
    platform.deposit("A", 1000).unwrap();
    platform.deposit("B", 1000).unwrap();
    platform.order(Order { price: 5, amount: 1, side: Side::Buy, signer: "A".to_string() }).unwrap();
    platform.order(Order { price: 7, amount: 1, side: Side::Buy, signer: "A".to_string() }).unwrap();
    platform.order(Order { price: 12, amount: 1, side: Side::Sell, signer: "B".to_string() }).unwrap();
    platform.order(Order { price: 9, amount: 1, side: Side::Sell, signer: "B".to_string() }).unwrap();
    let prices: Vec<u64> = platform.orderbook().iter().map(|o| o.price).collect();
    assert_eq!(prices, vec![5, 7, 9, 12]);
}

#[test]
fn checked_order_refuses_orders_that_overflow() {
    let mut platform = TradingPlatform::new();
    platform.deposit("A", 100).unwrap();
    platform.deposit("B", 100).unwrap();
    // the full price of this buy does not fit in a u64
    let huge = Order { price: u64::MAX, amount: 2, side: Side::Buy, signer: "A".to_string() };
    assert!(platform.checked_order(huge).is_none());
    assert_eq!(platform.matching_engine.ordinal, 0);
    // a sell at a huge price rests; a sell into a bid at a huge price would
    // overflow the fills' total
    let rest = Order { price: u64::MAX, amount: 2, side: Side::Sell, signer: "B".to_string() };
    assert!(platform.checked_order(rest).unwrap().is_ok());
    // unknown signers are answered as by `order`
    let stranger = Order { price: 1, amount: 1, side: Side::Buy, signer: "Z".to_string() };
    assert_eq!(
        platform.checked_order(stranger),
        Some(Err(ApplicationError::AccountNotFound("Z".to_string())))
    );
    // an order in range is placed
    let fine = Order { price: 10, amount: 1, side: Side::Buy, signer: "A".to_string() };
    assert!(platform.checked_order(fine).unwrap().is_ok());
    assert_eq!(platform.matching_engine.ordinal, 2);
}

#[test]
fn preview_fills_leaves_the_engine_unchanged() {
    let mut platform = TradingPlatform::new();
    platform.deposit("S", 0).unwrap();
    platform.deposit("B", 100).unwrap();
    platform.order(Order { price: 7, amount: 2, side: Side::Sell, signer: "S".to_string() }).unwrap();
    let probe = Order { price: 7, amount: 1, side: Side::Buy, signer: "B".to_string() };
    let fills = platform.matching_engine.preview_fills(&probe);
    assert_eq!(
        fills,
        vec![PartialOrder { price: 7, amount: 1, remaining: 1, side: Side::Sell, signer: "S".to_string(), ordinal: 1 }]
    );
    assert_eq!(platform.matching_engine.asks[0].orders[0].remaining, 2);
    assert_eq!(platform.matching_engine.ordinal, 1);
    let receipt = platform.order(probe).unwrap();
    assert_eq!(receipt.matches, fills);
}

fn total_of(platform: &TradingPlatform, names: &[&str]) -> u64 {
    names.iter().map(|n| *platform.accounts.balance_of(n).unwrap()).sum()
}

#[test]
fn orders_only_move_money_between_accounts() {
    let mut platform = TradingPlatform::new();
    let names = ["A", "B", "C"];
    platform.deposit("A", 100).unwrap();
    platform.deposit("B", 50).unwrap();
    platform.deposit("C", 0).unwrap();
    let before = total_of(&platform, &names);
    platform.order(Order { price: 5, amount: 4, side: Side::Sell, signer: "C".to_string() }).unwrap();
    platform.order(Order { price: 6, amount: 3, side: Side::Buy, signer: "A".to_string() }).unwrap();
    platform.order(Order { price: 4, amount: 2, side: Side::Buy, signer: "B".to_string() }).unwrap();
    platform.withdraw("B", 50).unwrap();
    // C sells into B's bid, which B can no longer pay for: settlement fails
    assert!(platform.order(Order { price: 4, amount: 2, side: Side::Sell, signer: "C".to_string() }).is_err());
    assert_eq!(total_of(&platform, &names), before - 50);
    assert_eq!(platform.accounts.num_accounts(), 3);
}
