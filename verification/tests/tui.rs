use exchange::requests::OrderBookResponse;
use exchange::tui::{App, AppEvent, KeyInput};
use exchange::types::{PartialOrder, Side};

fn entry(price: u64, signer: &str, ordinal: u64, side: Side) -> PartialOrder {
    PartialOrder {
        price,
        amount: 1,
        remaining: 1,
        side,
        signer: signer.to_string(),
        ordinal,
    }
}

#[test]
fn new_app_runs_with_an_empty_book() {
    let app = App::new();
    assert!(app.running);
    assert!(app.bids.is_empty());
    assert!(app.asks.is_empty());
    assert_eq!(app.tickct, 0);
}

#[test]
fn quit_stops_the_app() {
    let mut app = App::new();
    app.quit();
    assert!(!app.running);
}

#[test]
fn keys_that_quit() {
    let app = App::new();
    assert_eq!(app.handle_key_events(KeyInput::Esc, false), Some(AppEvent::Quit));
    assert_eq!(app.handle_key_events(KeyInput::Char('q'), false), Some(AppEvent::Quit));
    assert_eq!(app.handle_key_events(KeyInput::Char('c'), true), Some(AppEvent::Quit));
    assert_eq!(app.handle_key_events(KeyInput::Char('C'), true), Some(AppEvent::Quit));
    assert_eq!(app.handle_key_events(KeyInput::Char('c'), false), None);
    assert_eq!(app.handle_key_events(KeyInput::Char('x'), true), None);
    assert_eq!(app.handle_key_events(KeyInput::Other, false), None);
}

#[test]
fn refresh_every_thirtieth_tick() {
    let mut app = App::new();
    let mut refreshes = vec![];
    for _ in 0..90 {
        if app.tick() {
            refreshes.push(app.tickct);
        }
    }
    assert_eq!(refreshes, vec![30, 60, 90]);
}

#[test]
fn book_is_shown_sorted_and_stable() {
    let mut app = App::new();
    app.show_orderbook(OrderBookResponse {
        bids: vec![
            entry(5, "a", 1, Side::Buy),
            entry(9, "b", 2, Side::Buy),
            entry(5, "c", 3, Side::Buy),
            entry(7, "d", 4, Side::Buy),
        ],
        asks: vec![
            entry(12, "e", 5, Side::Sell),
            entry(10, "f", 6, Side::Sell),
            entry(12, "g", 7, Side::Sell),
            entry(11, "h", 8, Side::Sell),
        ],
    });
    let bids: Vec<(u64, &str)> = app.bids.iter().map(|o| (o.price, o.signer.as_str())).collect();
    let asks: Vec<(u64, &str)> = app.asks.iter().map(|o| (o.price, o.signer.as_str())).collect();
    assert_eq!(bids, vec![(9, "b"), (7, "d"), (5, "a"), (5, "c")]);
    assert_eq!(asks, vec![(10, "f"), (11, "h"), (12, "e"), (12, "g")]);
}

#[test]
fn listing_splits_into_sides_in_order() {
    let book = OrderBookResponse::from_orders(vec![
        entry(5, "a", 1, Side::Buy),
        entry(9, "b", 2, Side::Sell),
        entry(7, "c", 3, Side::Buy),
    ]);
    let bids: Vec<&str> = book.bids.iter().map(|o| o.signer.as_str()).collect();
    let asks: Vec<&str> = book.asks.iter().map(|o| o.signer.as_str()).collect();
    assert_eq!(bids, vec!["a", "c"]);
    assert_eq!(asks, vec!["b"]);
}
