//! Account balances keyed by signer name, with deposits, withdrawals and
//! transfers that never overflow, never go negative and roll back on failure.
use vstd::prelude::*;
use vstd::hash_map::StringHashMap;
use crate::types::{ApplicationError, ErrorView, Tx, TxView, result_view};

verus! {

/// Balances as the ledger sees them: signer name to balance.
pub type Balances = Map<Seq<char>, u64>;

/// The ledger after a deposit of `amount` into `signer`, and its outcome.
///
/// An unknown signer gets a new account holding `amount`; a known one is
/// credited unless the balance would overflow.
pub open spec fn deposit_spec(m: Balances, signer: Seq<char>, amount: u64) -> (Balances, Result<TxView, ErrorView>) {
    if !m.contains_key(signer) {
        (m.insert(signer, amount), Ok(TxView::Deposit { account: signer, amount }))
    } else if m[signer] + amount <= u64::MAX {
        (m.insert(signer, (m[signer] + amount) as u64), Ok(TxView::Deposit { account: signer, amount }))
    } else {
        (m, Err(ErrorView::AccountOverFunded(signer, amount)))
    }
}

/// The ledger after a withdrawal of `amount` from `signer`, and its outcome.
pub open spec fn withdraw_spec(m: Balances, signer: Seq<char>, amount: u64) -> (Balances, Result<TxView, ErrorView>) {
    if !m.contains_key(signer) {
        (m, Err(ErrorView::AccountNotFound(signer)))
    } else if m[signer] >= amount {
        (m.insert(signer, (m[signer] - amount) as u64), Ok(TxView::Withdraw { account: signer, amount }))
    } else {
        (m, Err(ErrorView::AccountUnderFunded(signer, amount)))
    }
}

/// The ledger after moving `amount` from `sender` to `recipient`, and its
/// outcome.
///
/// Both accounts must exist and the sender must hold `amount`; otherwise the
/// transfer is refused as `AccountNotFound` naming the sender when it is
/// unknown and the recipient in every other case. When the credit would
/// overflow the recipient, the debit is undone and the ledger is unchanged.
pub open spec fn send_spec(m: Balances, sender: Seq<char>, recipient: Seq<char>, amount: u64)
    -> (Balances, Result<(TxView, TxView), ErrorView>)
{
    if m.contains_key(sender) && m.contains_key(recipient) && m[sender] >= amount {
        let debited = m.insert(sender, (m[sender] - amount) as u64);
        if debited[recipient] + amount <= u64::MAX {
            (
                debited.insert(recipient, (debited[recipient] + amount) as u64),
                Ok((TxView::Withdraw { account: sender, amount }, TxView::Deposit { account: recipient, amount })),
            )
        } else {
            (m, Err(ErrorView::AccountOverFunded(recipient, amount)))
        }
    } else if !m.contains_key(sender) {
        (m, Err(ErrorView::AccountNotFound(sender)))
    } else {
        (m, Err(ErrorView::AccountNotFound(recipient)))
    }
}

/// A type for managing accounts and their current currency balance.
pub struct Accounts {
    pub accounts: StringHashMap<u64>,
}

impl View for Accounts {
    type V = Balances;

    open spec fn view(&self) -> Balances {
        self.accounts@
    }
}

impl Accounts {
    /// Returns an empty ledger.
    pub fn new() -> (r: Self)
        ensures
            r@ == Map::<Seq<char>, u64>::empty(),
    {
        Accounts { accounts: StringHashMap::new() }
    }

    /// The number of accounts in the ledger.
    pub fn num_accounts(&self) -> (n: usize)
        ensures
            n == self@.len(),
    {
        self.accounts.len()
    }

    /// Retrieves the balance of an account.
    pub fn balance_of(&self, signer: &str) -> (r: Result<&u64, ApplicationError>)
        ensures
            self@.contains_key(signer@) ==> (r matches Ok(b) && *b == self@[signer@]),
            !self@.contains_key(signer@) ==> (r matches Err(e) && e@ == ErrorView::AccountNotFound(signer@)),
    {
        match self.accounts.get(signer) {
            Some(b) => Ok(b),
            None => Err(ApplicationError::AccountNotFound(signer.to_owned())),
        }
    }

    /// Either creates a new account holding `amount` for `signer` or adds
    /// `amount` to the existing one.
    ///
    /// # Errors
    /// `AccountOverFunded` when the balance would overflow; the ledger is
    /// then unchanged.
    pub fn deposit(&mut self, signer: &str, amount: u64) -> (r: Result<Tx, ApplicationError>)
        ensures
            (final(self)@, result_view(r)) == deposit_spec(old(self)@, signer@, amount),
            r matches Ok(tx) ==> tx@ == (TxView::Deposit { account: signer@, amount }),
    {
        match self.accounts.get(signer) {
            Some(balance) => {
                let current = *balance;
                match current.checked_add(amount) {
                    Some(total) => {
                        self.accounts.insert(signer.to_owned(), total);
                        Ok(Tx::Deposit { account: signer.to_owned(), amount })
                    },
                    None => Err(ApplicationError::AccountOverFunded(signer.to_owned(), amount)),
                }
            },
            None => {
                self.accounts.insert(signer.to_owned(), amount);
                Ok(Tx::Deposit { account: signer.to_owned(), amount })
            },
        }
    }

    /// Withdraws `amount` from the `signer` account.
    ///
    /// # Errors
    /// `AccountNotFound` for an unknown signer, `AccountUnderFunded` when the
    /// balance is smaller than `amount`; the ledger is then unchanged.
    pub fn withdraw(&mut self, signer: &str, amount: u64) -> (r: Result<Tx, ApplicationError>)
        ensures
            (final(self)@, result_view(r)) == withdraw_spec(old(self)@, signer@, amount),
            r matches Ok(tx) ==> tx@ == (TxView::Withdraw { account: signer@, amount }),
    {
        match self.accounts.get(signer) {
            Some(balance) => {
                let current = *balance;
                match current.checked_sub(amount) {
                    Some(left) => {
                        self.accounts.insert(signer.to_owned(), left);
                        Ok(Tx::Withdraw { account: signer.to_owned(), amount })
                    },
                    None => Err(ApplicationError::AccountUnderFunded(signer.to_owned(), amount)),
                }
            },
            None => Err(ApplicationError::AccountNotFound(signer.to_owned())),
        }
    }

    /// Withdraws `amount` from the sender account and deposits it in the
    /// recipient account.
    ///
    /// # Errors
    /// `AccountNotFound` when either account is missing or the sender holds
    /// less than `amount`; `AccountOverFunded` when the recipient would
    /// overflow. The ledger is unchanged on every error.
    pub fn send(&mut self, sender: &str, recipient: &str, amount: u64) -> (r: Result<(Tx, Tx), ApplicationError>)
        ensures
            (final(self)@, result_view(r)) == send_spec(old(self)@, sender@, recipient@, amount),
            r matches Ok((w, d)) ==> w@ == (TxView::Withdraw { account: sender@, amount }) && d@ == (
            TxView::Deposit { account: recipient@, amount }),
    {
        let funded = match self.accounts.get(sender) {
            Some(balance) => *balance >= amount,
            None => false,
        };
        if self.accounts.contains_key(sender) && self.accounts.contains_key(recipient) && funded {
            let tx_withdraw = match self.withdraw(sender, amount) {
                Ok(tx) => tx,
                Err(e) => { return Err(e); },
            };
            match self.deposit(recipient, amount) {
                Ok(tx_deposit) => Ok((tx_withdraw, tx_deposit)),
                Err(e) => {
                    let restored = self.deposit(sender, amount);
                    assert(restored is Ok);
                    assert(self@ =~= old(self)@);
                    Err(e)
                },
            }
        } else if !self.accounts.contains_key(sender) {
            Err(ApplicationError::AccountNotFound(sender.to_owned()))
        } else {
            Err(ApplicationError::AccountNotFound(recipient.to_owned()))
        }
    }
}


/// A refused deposit, withdrawal or transfer leaves every balance as it was.
pub proof fn law_refusals_change_nothing(m: Balances, signer: Seq<char>, recipient: Seq<char>, amount: u64)
    ensures
        deposit_spec(m, signer, amount).1 is Err ==> deposit_spec(m, signer, amount).0 == m,
        withdraw_spec(m, signer, amount).1 is Err ==> withdraw_spec(m, signer, amount).0 == m,
        send_spec(m, signer, recipient, amount).1 is Err ==> send_spec(m, signer, recipient, amount).0 == m,
{
}

/// Withdrawing what was just deposited gives the balances back, except that
/// an account the deposit opened stays open with nothing in it.
pub proof fn law_deposit_then_withdraw(m: Balances, signer: Seq<char>, amount: u64)
    requires
        deposit_spec(m, signer, amount).1 is Ok,
    ensures
        ({
            let (back, outcome) = withdraw_spec(deposit_spec(m, signer, amount).0, signer, amount);
            &&& outcome == Ok::<TxView, ErrorView>(TxView::Withdraw { account: signer, amount })
            &&& back == if m.contains_key(signer) {
                m
            } else {
                m.insert(signer, 0)
            }
        }),
{
    let m1 = deposit_spec(m, signer, amount).0;
    let back = withdraw_spec(m1, signer, amount).0;
    if m.contains_key(signer) {
        assert(back =~= m);
    } else {
        assert(back =~= m.insert(signer, 0));
    }
}

/// A transfer moves exactly `amount` from the sender to the recipient and
/// touches no other account; a transfer to oneself changes nothing.
pub proof fn law_send_moves_amount(m: Balances, sender: Seq<char>, recipient: Seq<char>, amount: u64)
    requires
        send_spec(m, sender, recipient, amount).1 is Ok,
    ensures
        ({
            let after = send_spec(m, sender, recipient, amount).0;
            &&& after.dom() == m.dom()
            &&& sender != recipient ==> after[sender] == m[sender] - amount && after[recipient] == m[recipient]
                + amount
            &&& sender == recipient ==> after == m
            &&& forall|a: Seq<char>| #[trigger] m.contains_key(a) && a != sender && a != recipient ==> after[a] == m[a]
        }),
{
    let after = send_spec(m, sender, recipient, amount).0;
    assert(after.dom() =~= m.dom());
    if sender == recipient {
        assert(after =~= m);
    }
}


/// The sum of all balances of a ledger with finitely many accounts.
pub open spec fn total_balance(m: Balances) -> int
    decreases m.dom().len(),
    when m.dom().finite()
{
    if m.dom().len() == 0 {
        0
    } else {
        let k = m.dom().choose();
        m[k] + total_balance(m.remove(k))
    }
}

/// The sum of the balances is any one account's balance plus the sum of
/// the others.
pub proof fn lemma_total_balance_remove(m: Balances, k: Seq<char>)
    requires
        m.dom().finite(),
        m.contains_key(k),
    ensures
        total_balance(m) == m[k] + total_balance(m.remove(k)),
    decreases m.dom().len(),
{
    let c = m.dom().choose();
    assert(m.dom().contains(c));
    if c != k {
        assert(m.remove(c).dom() =~= m.dom().remove(c));
        assert(m.remove(k).dom() =~= m.dom().remove(k));
        lemma_total_balance_remove(m.remove(c), k);
        lemma_total_balance_remove(m.remove(k), c);
        assert(m.remove(c).remove(k) =~= m.remove(k).remove(c));
    }
}

/// Setting one existing account's balance changes the sum by the difference.
pub proof fn lemma_total_balance_update(m: Balances, k: Seq<char>, v: u64)
    requires
        m.dom().finite(),
        m.contains_key(k),
    ensures
        total_balance(m.insert(k, v)) == total_balance(m) - m[k] + v,
{
    let n = m.insert(k, v);
    assert(n.dom() =~= m.dom());
    lemma_total_balance_remove(n, k);
    lemma_total_balance_remove(m, k);
    assert(n.remove(k) =~= m.remove(k));
}

/// A ledger with finitely many accounts keeps finitely many through any
/// deposit, withdrawal or transfer.
pub proof fn law_ledger_stays_finite(m: Balances, signer: Seq<char>, recipient: Seq<char>, amount: u64)
    requires
        m.dom().finite(),
    ensures
        deposit_spec(m, signer, amount).0.dom().finite(),
        withdraw_spec(m, signer, amount).0.dom().finite(),
        send_spec(m, signer, recipient, amount).0.dom().finite(),
{
    law_send_moves_amount_dom(m, signer, recipient, amount);
}

proof fn law_send_moves_amount_dom(m: Balances, sender: Seq<char>, recipient: Seq<char>, amount: u64)
    ensures
        send_spec(m, sender, recipient, amount).0.dom() == m.dom(),
{
    assert(send_spec(m, sender, recipient, amount).0.dom() =~= m.dom());
}

/// A transfer, granted or refused, leaves the sum of all balances unchanged:
/// money only moves between accounts.
pub proof fn law_send_keeps_total(m: Balances, sender: Seq<char>, recipient: Seq<char>, amount: u64)
    requires
        m.dom().finite(),
    ensures
        send_spec(m, sender, recipient, amount).0.dom() == m.dom(),
        total_balance(send_spec(m, sender, recipient, amount).0) == total_balance(m),
{
    law_send_moves_amount_dom(m, sender, recipient, amount);
    if send_spec(m, sender, recipient, amount).1 is Ok {
        let debited = m.insert(sender, (m[sender] - amount) as u64);
        lemma_total_balance_update(m, sender, (m[sender] - amount) as u64);
        assert(debited.dom() =~= m.dom());
        lemma_total_balance_update(debited, recipient, (debited[recipient] + amount) as u64);
    }
}


/// A deposit is granted unless it would overflow the account; when granted
/// it records exactly the amount deposited under the signer's name, credits
/// exactly that amount (to a new account holding nothing before), and
/// touches no other account.
pub proof fn law_deposit_records_amount(m: Balances, signer: Seq<char>, amount: u64)
    ensures
        ({
            let (after, outcome) = deposit_spec(m, signer, amount);
            let before = if m.contains_key(signer) { m[signer] as int } else { 0 };
            &&& outcome is Ok <==> before + amount <= u64::MAX
            &&& outcome is Ok ==> {
                &&& outcome == Ok::<TxView, ErrorView>(TxView::Deposit { account: signer, amount })
                &&& after.contains_key(signer)
                &&& after[signer] == before + amount
            }
            &&& outcome is Err ==> outcome == Err::<TxView, ErrorView>(ErrorView::AccountOverFunded(signer, amount))
            &&& forall|a: Seq<char>| a != signer ==> (#[trigger] after.contains_key(a) <==> m.contains_key(a))
            &&& forall|a: Seq<char>| a != signer && m.contains_key(a) ==> #[trigger] after[a] == m[a]
        }),
{
}

/// A withdrawal is granted exactly when the account exists and holds the
/// amount; when granted it records exactly the amount withdrawn under the
/// signer's name, debits exactly that amount and touches no other account.
pub proof fn law_withdraw_records_amount(m: Balances, signer: Seq<char>, amount: u64)
    ensures
        ({
            let (after, outcome) = withdraw_spec(m, signer, amount);
            &&& outcome is Ok <==> m.contains_key(signer) && m[signer] >= amount
            &&& outcome is Ok ==> {
                &&& outcome == Ok::<TxView, ErrorView>(TxView::Withdraw { account: signer, amount })
                &&& after.contains_key(signer)
                &&& after[signer] == m[signer] - amount
            }
            &&& after.dom() == m.dom()
            &&& forall|a: Seq<char>| a != signer && m.contains_key(a) ==> #[trigger] after[a] == m[a]
        }),
{
    assert(withdraw_spec(m, signer, amount).0.dom() =~= m.dom());
}

/// A granted transfer records a withdrawal of exactly the amount from the
/// sender and a deposit of exactly the amount into the recipient.
pub proof fn law_send_records_amount(m: Balances, sender: Seq<char>, recipient: Seq<char>, amount: u64)
    ensures
        send_spec(m, sender, recipient, amount).1 is Ok ==> send_spec(m, sender, recipient, amount).1 == Ok::<
            (TxView, TxView),
            ErrorView,
        >((TxView::Withdraw { account: sender, amount }, TxView::Deposit { account: recipient, amount })),
{
}

} // verus!
