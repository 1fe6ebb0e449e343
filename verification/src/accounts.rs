//! The standalone ledger: the account rules of [`crate::accounting`],
//! reported through the ledger's own error type.
use vstd::prelude::*;
use crate::accounting::{self, Balances, deposit_spec, send_spec, withdraw_spec};
use crate::types::{ApplicationError, ErrorView, Tx, TxView, result_view};

verus! {

/// The ways a ledger operation can be refused.
#[derive(Debug, PartialEq, Eq)]
pub enum AccountingError {
    AccountNotFound(String),
    AccountUnderFunded(String, u64),
    AccountOverFunded(String, u64),
}

impl View for AccountingError {
    type V = ErrorView;

    open spec fn view(&self) -> ErrorView {
        match self {
            AccountingError::AccountNotFound(a) => ErrorView::AccountNotFound(a@),
            AccountingError::AccountUnderFunded(a, n) => ErrorView::AccountUnderFunded(a@, *n),
            AccountingError::AccountOverFunded(a, n) => ErrorView::AccountOverFunded(a@, *n),
        }
    }
}

impl AccountingError {
    /// The ledger error that reports the same refusal as `e`.
    pub fn from_application_error(e: ApplicationError) -> (r: AccountingError)
        ensures
            r@ == e@,
    {
        match e {
            ApplicationError::AccountNotFound(a) => AccountingError::AccountNotFound(a),
            ApplicationError::AccountUnderFunded(a, n) => AccountingError::AccountUnderFunded(a, n),
            ApplicationError::AccountOverFunded(a, n) => AccountingError::AccountOverFunded(a, n),
        }
    }
}

/// The names of a list of accounts.
pub open spec fn names_view(names: Seq<String>) -> Seq<Seq<char>> {
    names.map_values(|n: String| n@)
}

/// `names` lists every account of `m` exactly once.
pub open spec fn lists_accounts(names: Seq<String>, m: Balances) -> bool {
    &&& names_view(names).no_duplicates()
    &&& forall|i: int| 0 <= i < names.len() ==> m.contains_key(#[trigger] names[i]@)
    &&& forall|k: Seq<char>| #[trigger] m.contains_key(k) ==> names_view(names).contains(k)
}

/// A type for managing accounts and their current currency balance.
pub struct Accounts {
    accounts: accounting::Accounts,
    /// Every account's name, in the order the accounts were opened.
    names: Vec<String>,
}

impl View for Accounts {
    type V = Balances;

    closed spec fn view(&self) -> Balances {
        self.accounts@
    }
}

impl Accounts {
    #[verifier::type_invariant]
    spec fn names_listed(&self) -> bool {
        lists_accounts(self.names@, self.accounts@)
    }

    /// Returns an empty ledger.
    pub fn new() -> (r: Self)
        ensures
            r@ == Map::<Seq<char>, u64>::empty(),
    {
        let r = Accounts { accounts: accounting::Accounts::new(), names: Vec::new() };
        assert(names_view(r.names@) =~= Seq::<Seq<char>>::empty());
        r
    }

    /// The number of accounts in the ledger.
    pub fn num_accounts(&self) -> (n: usize)
        ensures
            n == self@.len(),
    {
        self.accounts.num_accounts()
    }

    /// Every account with its balance, each account once.
    pub fn balances(&self) -> (r: Vec<(String, u64)>)
        ensures
            forall|i: int| 0 <= i < r@.len() ==> self@.contains_key(#[trigger] r@[i].0@) && r@[i].1 == self@[r@[i].0@],
            forall|k: Seq<char>| #[trigger] self@.contains_key(k) ==> exists|i: int| 0 <= i < r@.len() && r@[i].0@ == k,
            forall|i: int, j: int| 0 <= i < j < r@.len() ==> (#[trigger] r@[i].0)@ != (#[trigger] r@[j].0)@,
    {
        proof {
            use_type_invariant(self);
        }
        let ghost names = names_view(self.names@);
        let mut r: Vec<(String, u64)> = Vec::new();
        let mut i: usize = 0;
        while i < self.names.len()
            invariant
                i <= self.names@.len(),
                names == names_view(self.names@),
                lists_accounts(self.names@, self.accounts@),
                r@.len() == i,
                forall|k: int| 0 <= k < i ==> (#[trigger] r@[k]).0@ == self.names@[k]@ && r@[k].1 == self.accounts@[self.names@[k]@],
            decreases self.names@.len() - i,
        {
            let name = self.names[i].clone();
            assert(self.accounts@.contains_key(self.names@[i as int]@));
            let balance = match self.accounts.balance_of(name.as_str()) {
                Ok(b) => *b,
                Err(_) => 0,
            };
            r.push((name, balance));
            i += 1;
        }
        assert forall|k: Seq<char>| #[trigger] self@.contains_key(k) implies exists|i: int| 0 <= i < r@.len() && r@[i].0@ == k by {
            assert(names.contains(k));
            let w = choose|w: int| 0 <= w < names.len() && names[w] == k;
            assert(r@[w].0@ == k);
        }
        assert forall|a: int, b: int| 0 <= a < b < r@.len() implies (#[trigger] r@[a].0)@ != (#[trigger] r@[b].0)@ by {
            assert(names[a] == self.names@[a]@ && names[b] == self.names@[b]@);
        }
        r
    }

    /// A listing stays complete when the ledger keeps its accounts.
    proof fn lemma_listed_same(names: Seq<String>, m: Balances, after: Balances)
        requires
            lists_accounts(names, m),
            after.dom() == m.dom(),
        ensures
            lists_accounts(names, after),
    {
        assert forall|k: Seq<char>| #[trigger] after.contains_key(k) implies names_view(names).contains(k) by {
            assert(m.contains_key(k));
        }
    }

    /// A listing stays complete when the ledger opens the account `name`
    /// and the name is appended.
    proof fn lemma_listed_push(names: Seq<String>, m: Balances, after: Balances, name: String)
        requires
            lists_accounts(names, m),
            !m.contains_key(name@),
            after.dom() == m.dom().insert(name@),
        ensures
            lists_accounts(names.push(name), after),
    {
        let n2 = names.push(name);
        assert(names_view(n2) =~= names_view(names).push(name@));
        assert forall|i: int| 0 <= i < n2.len() implies after.contains_key(#[trigger] n2[i]@) by {
            if i < names.len() {
                assert(n2[i] == names[i]);
            }
        }
        assert forall|k: Seq<char>| #[trigger] after.contains_key(k) implies names_view(n2).contains(k) by {
            if k == name@ {
                assert(names_view(n2)[names.len() as int] == k);
            } else {
                assert(m.contains_key(k));
                let w = choose|w: int| 0 <= w < names_view(names).len() && names_view(names)[w] == k;
                assert(names_view(n2)[w] == k);
            }
        }
        assert forall|x: int, y: int| 0 <= x < y < names_view(n2).len() implies names_view(n2)[x] != names_view(n2)[y] by {
            if y == names.len() {
                assert(names_view(n2)[x] == names[x]@);
                assert(m.contains_key(names[x]@));
            } else {
                assert(names_view(n2)[x] == names_view(names)[x]);
                assert(names_view(n2)[y] == names_view(names)[y]);
            }
        }
    }

    /// Either creates a new account holding `amount` for `signer` or adds
    /// `amount` to the existing one.
    ///
    /// # Errors
    /// `AccountOverFunded` when the balance would overflow; the ledger is
    /// then unchanged.
    pub fn deposit(&mut self, signer: &str, amount: u64) -> (r: Result<Tx, AccountingError>)
        ensures
            (final(self)@, result_view(r)) == deposit_spec(old(self)@, signer@, amount),
            r matches Ok(tx) ==> tx@ == (TxView::Deposit { account: signer@, amount }),
    {
        proof {
            use_type_invariant(&*self);
        }
        // The ledger is taken out of `self` while the list of names catches
        // up with it, and put back once both agree again.
        let mut emptied = Accounts { accounts: accounting::Accounts::new(), names: Vec::new() };
        proof {
            assert(names_view(emptied.names@) =~= Seq::<Seq<char>>::empty());
        }
        std::mem::swap(self, &mut emptied);
        let Accounts { accounts: mut ledger, names: mut names } = emptied;
        let ghost m = ledger@;
        let ghost before = names@;
        let added = ledger.balance_of(signer).is_err();
        let outcome = ledger.deposit(signer, amount);
        if added {
            let name = signer.to_owned();
            proof {
                assert(ledger@.dom() =~= m.dom().insert(signer@));
                Self::lemma_listed_push(before, m, ledger@, name);
            }
            names.push(name);
        } else {
            proof {
                assert(ledger@.dom() =~= m.dom());
                Self::lemma_listed_same(before, m, ledger@);
            }
        }
        *self = Accounts { accounts: ledger, names };
        match outcome {
            Ok(tx) => Ok(tx),
            Err(e) => Err(AccountingError::from_application_error(e)),
        }
    }

    /// Withdraws `amount` from the `signer` account.
    ///
    /// # Errors
    /// `AccountNotFound` for an unknown signer, `AccountUnderFunded` when the
    /// balance is smaller than `amount`; the ledger is then unchanged.
    pub fn withdraw(&mut self, signer: &str, amount: u64) -> (r: Result<Tx, AccountingError>)
        ensures
            (final(self)@, result_view(r)) == withdraw_spec(old(self)@, signer@, amount),
            r matches Ok(tx) ==> tx@ == (TxView::Withdraw { account: signer@, amount }),
    {
        proof {
            use_type_invariant(&*self);
        }
        let mut emptied = Accounts { accounts: accounting::Accounts::new(), names: Vec::new() };
        proof {
            assert(names_view(emptied.names@) =~= Seq::<Seq<char>>::empty());
        }
        std::mem::swap(self, &mut emptied);
        let Accounts { accounts: mut ledger, names } = emptied;
        let ghost m = ledger@;
        let outcome = ledger.withdraw(signer, amount);
        proof {
            assert(ledger@.dom() =~= m.dom());
            Self::lemma_listed_same(names@, m, ledger@);
        }
        *self = Accounts { accounts: ledger, names };
        match outcome {
            Ok(tx) => Ok(tx),
            Err(e) => Err(AccountingError::from_application_error(e)),
        }
    }

    /// Withdraws `amount` from the sender account and deposits it in the
    /// recipient account.
    ///
    /// # Errors
    /// `AccountNotFound` when either account is missing or the sender holds
    /// less than `amount`; `AccountOverFunded` when the recipient would
    /// overflow. The ledger is unchanged on every error.
    pub fn send(&mut self, sender: &str, recipient: &str, amount: u64) -> (r: Result<(Tx, Tx), AccountingError>)
        ensures
            (final(self)@, result_view(r)) == send_spec(old(self)@, sender@, recipient@, amount),
            r matches Ok((w, d)) ==> w@ == (TxView::Withdraw { account: sender@, amount }) && d@ == (
            TxView::Deposit { account: recipient@, amount }),
    {
        proof {
            use_type_invariant(&*self);
        }
        let mut emptied = Accounts { accounts: accounting::Accounts::new(), names: Vec::new() };
        proof {
            assert(names_view(emptied.names@) =~= Seq::<Seq<char>>::empty());
        }
        std::mem::swap(self, &mut emptied);
        let Accounts { accounts: mut ledger, names } = emptied;
        let ghost m = ledger@;
        let outcome = ledger.send(sender, recipient, amount);
        proof {
            assert(ledger@.dom() =~= m.dom());
            Self::lemma_listed_same(names@, m, ledger@);
        }
        *self = Accounts { accounts: ledger, names };
        match outcome {
            Ok(pair) => Ok(pair),
            Err(e) => Err(AccountingError::from_application_error(e)),
        }
    }
}

} // verus!
