//! A limit order book exchange: account ledgers, a price-time matching
//! engine and the trading platform that settles matched orders.
pub mod types;
pub mod accounting;
pub mod matching;
pub mod trading_platform;
pub mod accounts;
pub mod matching_laws;
pub mod requests;
pub mod cli;
pub mod tui;
