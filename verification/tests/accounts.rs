use exchange::accounts::{Accounts, AccountingError};
use exchange::types::Tx;

#[test]
fn transaction_errors_handled() {
    // missing, underfunded, or an overflow
    let mut ledger = Accounts::new();
    let _tx1 = ledger.deposit("joshua", 10).unwrap();

    // underfunded
    assert!(ledger.withdraw("joshua", 20).is_err());

    // overfunded
    assert!(ledger.deposit("joshua", u64::MAX).is_err());

    // missing account
    assert!(ledger.withdraw("josh", 20).is_err());
    assert!(ledger.send("jeremy", "joshua", 20).is_err());
}

#[test]
fn correct_transaction_variants() {
    let mut ledger = Accounts::new();
    assert_eq!(
        ledger.deposit("joshua", 10).unwrap(),
        Tx::Deposit {
            account: "joshua".to_string(),
            amount: 10
        }
    );
}

#[test]
fn ledger_reports_each_error_variant() {
    let mut ledger = Accounts::new();
    ledger.deposit("joshua", 10).unwrap();
    assert_eq!(
        ledger.withdraw("joshua", 20),
        Err(AccountingError::AccountUnderFunded("joshua".to_string(), 20))
    );
    assert_eq!(
        ledger.deposit("joshua", u64::MAX),
        Err(AccountingError::AccountOverFunded("joshua".to_string(), u64::MAX))
    );
    assert_eq!(
        ledger.withdraw("josh", 20),
        Err(AccountingError::AccountNotFound("josh".to_string()))
    );
    assert_eq!(
        ledger.send("jeremy", "joshua", 20),
        Err(AccountingError::AccountNotFound("jeremy".to_string()))
    );
}

#[test]
fn ledger_send_moves_funds() {
    let mut ledger = Accounts::new();
    ledger.deposit("a", 50).unwrap();
    ledger.deposit("b", 5).unwrap();
    let (w, d) = ledger.send("a", "b", 20).unwrap();
    assert_eq!(w, Tx::Withdraw { account: "a".to_string(), amount: 20 });
    assert_eq!(d, Tx::Deposit { account: "b".to_string(), amount: 20 });
    // a now holds 30, b holds 25
    assert!(ledger.withdraw("a", 31).is_err());
    assert!(ledger.withdraw("a", 30).is_ok());
    assert!(ledger.withdraw("b", 25).is_ok());
}

#[test]
fn ledger_lists_every_account_once() {
    let mut ledger = Accounts::new();
    ledger.deposit("a", 5).unwrap();
    ledger.deposit("b", 7).unwrap();
    ledger.deposit("a", 1).unwrap();
    assert!(ledger.deposit("b", u64::MAX).is_err());
    ledger.send("b", "a", 2).unwrap();
    let mut listed = ledger.balances();
    listed.sort();
    assert_eq!(listed, vec![("a".to_string(), 8), ("b".to_string(), 5)]);
    assert_eq!(ledger.num_accounts(), 2);
}
