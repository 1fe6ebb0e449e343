//! The bodies of the platform's HTTP requests and responses.
use vstd::prelude::*;
use crate::types::{PartialOrder, Side};

verus! {

/// A deposit into or withdrawal from one account.
pub struct AccountUpdateRequest {
    pub signer: String,
    pub amount: u64,
}

/// A balance query for one account.
pub struct AccountBalanceRequest {
    pub signer: String,
}

/// A transfer between two accounts.
pub struct SendRequest {
    pub sender: String,
    pub recipient: String,
    pub amount: u64,
}

/// Both sides of the order book.
pub struct OrderBookResponse {
    pub bids: Vec<PartialOrder>,
    pub asks: Vec<PartialOrder>,
}


/// The entries of `s` on `side`, in their order in `s`.
pub open spec fn on_side(s: Seq<PartialOrder>, side: Side) -> Seq<PartialOrder>
    decreases s.len(),
{
    if s.len() == 0 {
        Seq::empty()
    } else if s.last().side == side {
        on_side(s.drop_last(), side).push(s.last())
    } else {
        on_side(s.drop_last(), side)
    }
}

impl OrderBookResponse {
    /// Splits a listing of the book into its buy and sell entries, each in
    /// listing order.
    pub fn from_orders(orders: Vec<PartialOrder>) -> (r: OrderBookResponse)
        ensures
            r.bids@ == on_side(orders@, Side::Buy),
            r.asks@ == on_side(orders@, Side::Sell),
    {
        let mut bids: Vec<PartialOrder> = Vec::new();
        let mut asks: Vec<PartialOrder> = Vec::new();
        let mut i: usize = 0;
        while i < orders.len()
            invariant
                i <= orders@.len(),
                bids@ == on_side(orders@.take(i as int), Side::Buy),
                asks@ == on_side(orders@.take(i as int), Side::Sell),
            decreases orders@.len() - i,
        {
            let o = orders[i].clone();
            assert(orders@.take(i as int + 1).drop_last() =~= orders@.take(i as int));
            assert(orders@.take(i as int + 1).last() == o);
            match o.side {
                Side::Buy => bids.push(o),
                Side::Sell => asks.push(o),
            }
            i += 1;
        }
        assert(orders@.take(i as int) =~= orders@);
        OrderBookResponse { bids, asks }
    }
}

} // verus!
