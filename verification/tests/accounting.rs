use exchange::accounting::Accounts;
use exchange::types::{ApplicationError, Tx};

#[test]
fn test_accounts_withdraw_underfunded() {
    let mut accounts = Accounts::new();
    accounts.deposit("a-key", 0).unwrap();
    let actual = accounts.withdraw("a-key", 100);
    assert_eq!(
        actual,
        Err(ApplicationError::AccountUnderFunded("a-key".to_string(), 100))
    );
}

#[test]
fn test_accounts_deposit_overfunded() {
    let mut accounts = Accounts::new();
    accounts.deposit("a-key", 1).expect("Initial deposit failed");
    let actual = accounts.deposit("a-key", u64::MAX);
    assert_eq!(
        actual,
        Err(ApplicationError::AccountOverFunded("a-key".to_string(), u64::MAX))
    );
}

#[test]
fn test_accounts_deposit_works() {
    let mut accounts = Accounts::new();
    let amt = 100;
    let actual = accounts.deposit("a-key", amt);
    assert_eq!(
        actual,
        Ok(Tx::Deposit {
            account: "a-key".to_string(),
            amount: amt
        })
    );
}

#[test]
fn test_accounts_withdraw_works() {
    let mut accounts = Accounts::new();
    let amt = 100;
    accounts.deposit("a-key", amt).expect("Couldn't deposit");
    let actual = accounts.withdraw("a-key", amt);
    assert_eq!(
        actual,
        Ok(Tx::Withdraw {
            account: "a-key".to_string(),
            amount: amt
        })
    );
}

#[test]
fn test_accounts_send_works() {
    let mut accounts = Accounts::new();
    let amt = 100;
    accounts.deposit("a-key", amt).expect("Couldn't deposit");

    // creating the receiver is also required
    accounts.deposit("b-key", 0).expect("Couldn't deposit");

    let (tx1, tx2) = accounts.send("a-key", "b-key", amt).expect("Send failed");
    assert_eq!(
        tx1,
        Tx::Withdraw {
            account: "a-key".to_string(),
            amount: amt
        }
    );
    assert_eq!(
        tx2,
        Tx::Deposit {
            account: "b-key".to_string(),
            amount: amt
        }
    );

    let actual = accounts.withdraw("b-key", amt);
    assert_eq!(
        actual,
        Ok(Tx::Withdraw {
            account: "b-key".to_string(),
            amount: amt
        })
    );
}

#[test]
fn test_accounts_send_underfunded_fails_and_rolls_back() {
    let mut accounts = Accounts::new();
    let amt = 100;
    accounts.deposit("a-key", amt).expect("Couldn't deposit");

    // creating the receiver is also required
    accounts.deposit("b-key", 0).expect("Couldn't deposit");

    let actual = accounts.send("a-key", "b-key", amt + 1);
    assert!(actual.is_err());
    // the ledger holds exactly {"a-key": amt, "b-key": 0}
    assert_eq!(accounts.num_accounts(), 2);
    assert_eq!(accounts.balance_of("a-key"), Ok(&amt));
    assert_eq!(accounts.balance_of("b-key"), Ok(&0));
}

#[test]
fn test_accounts_send_overfunded_fails_and_rolls_back() {
    let mut accounts = Accounts::new();
    let amt = 100;
    accounts.deposit("a-key", amt).expect("Couldn't deposit");

    // creating the receiver is also required
    accounts.deposit("b-key", u64::MAX).expect("Couldn't deposit");

    let actual = accounts.send("a-key", "b-key", 1);
    assert!(actual.is_err());
    // the ledger holds exactly {"a-key": amt, "b-key": u64::MAX}
    assert_eq!(accounts.num_accounts(), 2);
    assert_eq!(accounts.balance_of("a-key"), Ok(&amt));
    assert_eq!(accounts.balance_of("b-key"), Ok(&u64::MAX));
}

#[test]
fn balance_of_unknown_account_is_not_found() {
    let accounts = Accounts::new();
    assert_eq!(
        accounts.balance_of("nobody"),
        Err(ApplicationError::AccountNotFound("nobody".to_string()))
    );
}

#[test]
fn send_errors_name_the_missing_or_refused_account() {
    let mut accounts = Accounts::new();
    accounts.deposit("a", 10).unwrap();
    accounts.deposit("b", u64::MAX).unwrap();
    // unknown sender
    assert_eq!(
        accounts.send("x", "a", 1),
        Err(ApplicationError::AccountNotFound("x".to_string()))
    );
    // unknown recipient
    assert_eq!(
        accounts.send("a", "y", 1),
        Err(ApplicationError::AccountNotFound("y".to_string()))
    );
    // sender short of funds: reported against the recipient
    assert_eq!(
        accounts.send("a", "b", 11),
        Err(ApplicationError::AccountNotFound("b".to_string()))
    );
    // recipient would overflow
    assert_eq!(
        accounts.send("a", "b", 1),
        Err(ApplicationError::AccountOverFunded("b".to_string(), 1))
    );
    assert_eq!(accounts.balance_of("a"), Ok(&10));
    assert_eq!(accounts.balance_of("b"), Ok(&u64::MAX));
}

#[test]
fn deposit_then_withdraw_restores_balance() {
    let mut accounts = Accounts::new();
    accounts.deposit("a", 40).unwrap();
    accounts.deposit("a", 2).unwrap();
    accounts.withdraw("a", 2).unwrap();
    assert_eq!(accounts.balance_of("a"), Ok(&40));
    // a fresh account stays open, empty
    accounts.deposit("fresh", 9).unwrap();
    accounts.withdraw("fresh", 9).unwrap();
    assert_eq!(accounts.balance_of("fresh"), Ok(&0));
    assert_eq!(accounts.num_accounts(), 2);
}

#[test]
fn send_to_self_changes_nothing() {
    let mut accounts = Accounts::new();
    accounts.deposit("a", 7).unwrap();
    assert!(accounts.send("a", "a", 7).is_ok());
    assert_eq!(accounts.balance_of("a"), Ok(&7));
}
