use exchange::cli::{parse_u64, text_is, ClientCommand, LedgerCommand};
use exchange::types::Side;

#[test]
fn parse_u64_reads_decimal_numbers() {
    assert_eq!(parse_u64("0"), Some(0));
    assert_eq!(parse_u64("42"), Some(42));
    assert_eq!(parse_u64("+7"), Some(7));
    assert_eq!(parse_u64("18446744073709551615"), Some(u64::MAX));
}

#[test]
fn parse_u64_refuses_what_u64_refuses() {
    for text in ["", "+", "-1", "12a", " 1", "18446744073709551616", "99999999999999999999x"] {
        assert_eq!(parse_u64(text), None, "{text}");
        assert!(text.parse::<u64>().is_err(), "{text}");
    }
    for text in ["0", "+0", "007", "123456789"] {
        assert_eq!(parse_u64(text), text.parse::<u64>().ok(), "{text}");
    }
}

#[test]
fn side_parses_buy_and_sell() {
    assert_eq!(Side::parse("buy"), Some(Side::Buy));
    assert_eq!(Side::parse("sell"), Some(Side::Sell));
    assert_eq!(Side::parse("hold"), None);
    assert_eq!(Side::parse(""), None);
}

#[test]
fn text_is_compares_whole_words() {
    assert!(text_is("order", "order"));
    assert!(!text_is("order", "orderbook"));
    assert!(!text_is("o", "order"));
}

#[test]
fn ledger_commands() {
    assert_eq!(LedgerCommand::parse("deposit"), LedgerCommand::Deposit);
    assert_eq!(LedgerCommand::parse("withdraw"), LedgerCommand::Withdraw);
    assert_eq!(LedgerCommand::parse("send"), LedgerCommand::Send);
    assert_eq!(LedgerCommand::parse("print"), LedgerCommand::Print);
    assert_eq!(LedgerCommand::parse("quit"), LedgerCommand::Quit);
    assert_eq!(LedgerCommand::parse("d"), LedgerCommand::Unknown);
}

#[test]
fn client_commands_long_and_short() {
    assert_eq!(ClientCommand::parse("deposit"), ClientCommand::Deposit);
    assert_eq!(ClientCommand::parse("d"), ClientCommand::Deposit);
    assert_eq!(ClientCommand::parse("w"), ClientCommand::Withdraw);
    assert_eq!(ClientCommand::parse("s"), ClientCommand::Send);
    assert_eq!(ClientCommand::parse("o"), ClientCommand::Order);
    assert_eq!(ClientCommand::parse("ob"), ClientCommand::OrderBook);
    assert_eq!(ClientCommand::parse("orderbook"), ClientCommand::OrderBook);
    assert_eq!(ClientCommand::parse("txlog"), ClientCommand::TxLog);
    assert_eq!(ClientCommand::parse("print"), ClientCommand::Print);
    assert_eq!(ClientCommand::parse("q"), ClientCommand::Quit);
    assert_eq!(ClientCommand::parse("exit"), ClientCommand::Unknown);
}
