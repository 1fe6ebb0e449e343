//! The values that travel between the ledgers, the matching engine and the
//! outside world: orders, fills, receipts, transactions and errors.
use vstd::prelude::*;

verus! {

/// The side of the book an order belongs to.
#[derive(Clone, Copy, Debug, PartialEq, Eq, Structural)]
pub enum Side {
    Buy,
    Sell,
}

impl Side {
    /// The side an incoming order of this side is matched against.
    pub open spec fn opposite(self) -> Side {
        match self {
            Side::Buy => Side::Sell,
            Side::Sell => Side::Buy,
        }
    }
}

/// A limit order as submitted by a trader.
#[derive(Debug, PartialEq, Eq)]
pub struct Order {
    pub price: u64,
    pub amount: u64,
    pub side: Side,
    pub signer: String,
}

/// An order, or the part of one, that rests in the book or was filled.
///
/// `amount` is the quantity the entry stands for, `remaining` what is left
/// of it to be matched, and `ordinal` the sequence number of the order that
/// created it.
#[derive(Debug, PartialEq, Eq)]
pub struct PartialOrder {
    pub price: u64,
    pub amount: u64,
    pub remaining: u64,
    pub side: Side,
    pub signer: String,
    pub ordinal: u64,
}

/// The outcome of processing one order: its sequence number and the
/// resting orders it was matched with, in the order they were filled.
#[derive(Debug, PartialEq, Eq)]
pub struct Receipt {
    pub ordinal: u64,
    pub matches: Vec<PartialOrder>,
}

/// A ledger transaction.
#[derive(Debug, PartialEq, Eq)]
pub enum Tx {
    Deposit { account: String, amount: u64 },
    Withdraw { account: String, amount: u64 },
}

/// A ledger transaction with its account name taken as a character sequence.
pub enum TxView {
    Deposit { account: Seq<char>, amount: u64 },
    Withdraw { account: Seq<char>, amount: u64 },
}

/// The ways a ledger or platform operation can be refused.
#[derive(Debug, PartialEq, Eq)]
pub enum ApplicationError {
    AccountNotFound(String),
    AccountUnderFunded(String, u64),
    AccountOverFunded(String, u64),
}

/// An error with its account name taken as a character sequence.
pub enum ErrorView {
    AccountNotFound(Seq<char>),
    AccountUnderFunded(Seq<char>, u64),
    AccountOverFunded(Seq<char>, u64),
}

impl View for Tx {
    type V = TxView;

    open spec fn view(&self) -> TxView {
        match self {
            Tx::Deposit { account, amount } => TxView::Deposit { account: account@, amount: *amount },
            Tx::Withdraw { account, amount } => TxView::Withdraw { account: account@, amount: *amount },
        }
    }
}

impl View for ApplicationError {
    type V = ErrorView;

    open spec fn view(&self) -> ErrorView {
        match self {
            ApplicationError::AccountNotFound(a) => ErrorView::AccountNotFound(a@),
            ApplicationError::AccountUnderFunded(a, n) => ErrorView::AccountUnderFunded(a@, *n),
            ApplicationError::AccountOverFunded(a, n) => ErrorView::AccountOverFunded(a@, *n),
        }
    }
}

/// A result with both of its sides taken by their views.
pub open spec fn result_view<T: View, E: View>(r: Result<T, E>) -> Result<T::V, E::V> {
    match r {
        Ok(t) => Ok(t@),
        Err(e) => Err(e@),
    }
}

/// The views of a sequence of transactions.
pub open spec fn txs_view(txs: Seq<Tx>) -> Seq<TxView> {
    txs.map_values(|t: Tx| t@)
}

impl Clone for Order {
    fn clone(&self) -> (r: Self)
        ensures
            r == *self,
    {
        Order { price: self.price, amount: self.amount, side: self.side, signer: self.signer.clone() }
    }
}

impl Clone for PartialOrder {
    fn clone(&self) -> (r: Self)
        ensures
            r == *self,
    {
        PartialOrder {
            price: self.price,
            amount: self.amount,
            remaining: self.remaining,
            side: self.side,
            signer: self.signer.clone(),
            ordinal: self.ordinal,
        }
    }
}

impl Clone for Receipt {
    fn clone(&self) -> (r: Self)
        ensures
            r.ordinal == self.ordinal,
            r.matches@ == self.matches@,
    {
        let mut matches: Vec<PartialOrder> = Vec::new();
        let mut i: usize = 0;
        while i < self.matches.len()
            invariant
                i <= self.matches.len(),
                matches@ == self.matches@.take(i as int),
            decreases self.matches.len() - i,
        {
            matches.push(self.matches[i].clone());
            i += 1;
            assert(matches@ =~= self.matches@.take(i as int));
        }
        assert(matches@ =~= self.matches@);
        Receipt { ordinal: self.ordinal, matches }
    }
}

impl Clone for Tx {
    fn clone(&self) -> (r: Self)
        ensures
            r == *self,
    {
        match self {
            Tx::Deposit { account, amount } => Tx::Deposit { account: account.clone(), amount: *amount },
            Tx::Withdraw { account, amount } => Tx::Withdraw { account: account.clone(), amount: *amount },
        }
    }
}

impl Clone for ApplicationError {
    fn clone(&self) -> (r: Self)
        ensures
            r == *self,
    {
        match self {
            ApplicationError::AccountNotFound(a) => ApplicationError::AccountNotFound(a.clone()),
            ApplicationError::AccountUnderFunded(a, n) => ApplicationError::AccountUnderFunded(a.clone(), *n),
            ApplicationError::AccountOverFunded(a, n) => ApplicationError::AccountOverFunded(a.clone(), *n),
        }
    }
}

impl Order {
    /// Turns the order into a book entry with the given sequence number and
    /// quantity left to match.
    pub fn into_partial_order(self, ordinal: u64, remaining: u64) -> (p: PartialOrder)
        ensures
            p == (PartialOrder {
                price: self.price,
                amount: self.amount,
                remaining,
                side: self.side,
                signer: self.signer,
                ordinal,
            }),
    {
        let Order { price, amount, side, signer } = self;
        PartialOrder { price, amount, remaining, side, signer, ordinal }
    }
}

/// The fill that taking `take` out of `pos` at `price` produces.
pub open spec fn taken_from(pos: PartialOrder, take: u64, price: u64) -> PartialOrder {
    PartialOrder {
        price,
        amount: take,
        remaining: (pos.remaining - take) as u64,
        side: pos.side,
        signer: pos.signer,
        ordinal: pos.ordinal,
    }
}

impl PartialOrder {
    /// Splits `take` off `pos`: `pos` keeps what is left and the returned
    /// entry records the `take` units filled at `price`.
    pub fn take_from(pos: &mut PartialOrder, take: u64, price: u64) -> (filled: PartialOrder)
        requires
            take <= old(pos).remaining,
        ensures
            *final(pos) == (PartialOrder { remaining: (old(pos).remaining - take) as u64, ..*old(pos) }),
            filled == taken_from(*old(pos), take, price),
    {
        pos.remaining = pos.remaining - take;
        let mut filled = pos.clone();
        filled.amount = take;
        filled.price = price;
        filled
    }
}

} // verus!
