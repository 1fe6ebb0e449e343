//! The trading platform: a ledger, a matching engine and a transaction log.
//! Orders are checked against the signer's account, matched, and every fill
//! is settled by a transfer from the buyer to the seller.
use vstd::prelude::*;
use crate::accounting::{Accounts, Balances, deposit_spec, send_spec, total_balance, withdraw_spec};
use crate::matching::{
    BookView, LevelView, MatchingEngine, ReceiptView, book_after, levels_view, receipts_view,
};
use crate::types::{
    ApplicationError, ErrorView, Order, PartialOrder, Receipt, Side, Tx, TxView, result_view, txs_view,
};

verus! {

/// The price of a fill: its quantity times its price.
pub open spec fn fill_value(f: PartialOrder) -> int {
    f.amount * f.price
}

/// The total price of a sequence of fills.
pub open spec fn total_value(fills: Seq<PartialOrder>) -> int
    decreases fills.len(),
{
    if fills.len() == 0 {
        0
    } else {
        total_value(fills.drop_last()) + fill_value(fills.last())
    }
}

/// The ledger and log after settling `fills` of an order of `side` placed by
/// `signer`, and the error that stopped settlement, if any.
///
/// Fills are settled in order, each by a transfer of its price from the
/// buyer to the seller, and each successful transfer logs its withdrawal
/// and deposit. The first refused transfer stops settlement; the transfers
/// before it stand.
pub open spec fn settle(m: Balances, log: Seq<TxView>, fills: Seq<PartialOrder>, side: Side, signer: Seq<char>)
    -> (Balances, Seq<TxView>, Option<ErrorView>)
    decreases fills.len(),
{
    if fills.len() == 0 {
        (m, log, None)
    } else {
        let f = fills[0];
        let value = fill_value(f) as u64;
        let (payer, payee) = match side {
            Side::Buy => (signer, f.signer@),
            Side::Sell => (f.signer@, signer),
        };
        let (paid, outcome) = send_spec(m, payer, payee, value);
        match outcome {
            Ok((withdrawal, deposit)) => settle(paid, log.push(withdrawal).push(deposit), fills.drop_first(), side, signer),
            Err(e) => (paid, log, Some(e)),
        }
    }
}

/// The core of the core: manages accounts, validates and orchestrates the
/// processing of each order.
pub struct TradingPlatform {
    pub matching_engine: MatchingEngine,
    pub accounts: Accounts,
    pub transaction_log: Vec<Tx>,
}

impl TradingPlatform {
    /// The matching engine's book is well-formed.
    pub open spec fn wf(&self) -> bool {
        self.matching_engine.wf()
    }

    /// Whether the signer of `order` holds an account and, for a buy, at
    /// least the order's full price: the orders that reach the book.
    pub open spec fn accepts(&self, order: Order) -> bool {
        let m = self.accounts@;
        &&& m.contains_key(order.signer@)
        &&& !(order.side == Side::Buy && m[order.signer@] < order.amount * order.price)
    }

    /// The inputs on which placing `order` stays within machine integers:
    /// a known buyer's full price, the next sequence number, and the total
    /// price of the fills of an accepted order all fit in a `u64`.
    pub open spec fn order_in_range(&self, order: Order) -> bool {
        &&& (self.accounts@.contains_key(order.signer@) && order.side == Side::Buy) ==> order.amount
            * order.price <= u64::MAX
        &&& self.accepts(order) ==> {
            &&& self.matching_engine.ordinal < u64::MAX
            &&& total_value(
                book_after(self.matching_engine.book(), order, (self.matching_engine.ordinal + 1) as u64).1,
            ) <= u64::MAX
        }
    }

    /// Creates a platform without any data.
    pub fn new() -> (r: Self)
        ensures
            r.wf(),
            r.accounts@ == Map::<Seq<char>, u64>::empty(),
            r.transaction_log@.len() == 0,
            r.matching_engine.ordinal == 0,
            r.matching_engine.book() == (BookView { bids: Seq::empty(), asks: Seq::empty() }),
            r.matching_engine.history@.len() == 0,
    {
        let r = TradingPlatform {
            matching_engine: MatchingEngine::new(),
            accounts: Accounts::new(),
            transaction_log: Vec::new(),
        };
        assert(r.matching_engine.book().bids =~= Seq::<LevelView>::empty());
        assert(r.matching_engine.book().asks =~= Seq::<LevelView>::empty());
        r
    }

    /// Retrieves the balance of an account.
    pub fn balance_of(&mut self, signer: &str) -> (r: Result<&u64, ApplicationError>)
        ensures
            *final(self) == *old(self),
            old(self).accounts@.contains_key(signer@) ==> (r matches Ok(b) && *b == old(self).accounts@[signer@]),
            !old(self).accounts@.contains_key(signer@) ==> (r matches Err(e) && e@ == ErrorView::AccountNotFound(
                signer@,
            )),
    {
        self.accounts.balance_of(signer)
    }

    /// Deposits funds and logs the transaction.
    pub fn deposit(&mut self, signer: &str, amount: u64) -> (r: Result<Tx, ApplicationError>)
        ensures
            (final(self).accounts@, result_view(r)) == deposit_spec(old(self).accounts@, signer@, amount),
            r matches Ok(tx) ==> tx@ == (TxView::Deposit { account: signer@, amount }),
            final(self).matching_engine == old(self).matching_engine,
            match r {
                Ok(tx) => txs_view(final(self).transaction_log@) == txs_view(old(self).transaction_log@).push(tx@),
                Err(_) => final(self).transaction_log@ == old(self).transaction_log@,
            },
    {
        let tx = match self.accounts.deposit(signer, amount) {
            Ok(tx) => tx,
            Err(e) => { return Err(e); },
        };
        self.transaction_log.push(tx.clone());
        assert(txs_view(self.transaction_log@) =~= txs_view(old(self).transaction_log@).push(tx@));
        Ok(tx)
    }

    /// Withdraws funds and logs the transaction.
    pub fn withdraw(&mut self, signer: &str, amount: u64) -> (r: Result<Tx, ApplicationError>)
        ensures
            (final(self).accounts@, result_view(r)) == withdraw_spec(old(self).accounts@, signer@, amount),
            r matches Ok(tx) ==> tx@ == (TxView::Withdraw { account: signer@, amount }),
            final(self).matching_engine == old(self).matching_engine,
            match r {
                Ok(tx) => txs_view(final(self).transaction_log@) == txs_view(old(self).transaction_log@).push(tx@),
                Err(_) => final(self).transaction_log@ == old(self).transaction_log@,
            },
    {
        let tx = match self.accounts.withdraw(signer, amount) {
            Ok(tx) => tx,
            Err(e) => { return Err(e); },
        };
        self.transaction_log.push(tx.clone());
        assert(txs_view(self.transaction_log@) =~= txs_view(old(self).transaction_log@).push(tx@));
        Ok(tx)
    }

    /// Transfers funds between sender and recipient and logs both
    /// transactions.
    pub fn send(&mut self, sender: &str, recipient: &str, amount: u64) -> (r: Result<(Tx, Tx), ApplicationError>)
        ensures
            (final(self).accounts@, result_view(r)) == send_spec(old(self).accounts@, sender@, recipient@, amount),
            r matches Ok((w, d)) ==> w@ == (TxView::Withdraw { account: sender@, amount }) && d@ == (
            TxView::Deposit { account: recipient@, amount }),
            final(self).matching_engine == old(self).matching_engine,
            match r {
                Ok((w, d)) => txs_view(final(self).transaction_log@) == txs_view(old(self).transaction_log@).push(
                    w@,
                ).push(d@),
                Err(_) => final(self).transaction_log@ == old(self).transaction_log@,
            },
    {
        let (tx1, tx2) = match self.accounts.send(sender, recipient, amount) {
            Ok(pair) => pair,
            Err(e) => { return Err(e); },
        };
        self.transaction_log.push(tx1.clone());
        self.transaction_log.push(tx2.clone());
        assert(txs_view(self.transaction_log@) =~= txs_view(old(self).transaction_log@).push(tx1@).push(tx2@));
        Ok((tx1, tx2))
    }
}


proof fn lemma_total_value_nonneg(s: Seq<PartialOrder>)
    ensures
        total_value(s) >= 0,
    decreases s.len(),
{
    if s.len() > 0 {
        lemma_total_value_nonneg(s.drop_last());
        let f = s.last();
        assert(f.amount * f.price >= 0) by (nonlinear_arith);
    }
}

/// No single fill is worth more than all the fills together.
proof fn lemma_fill_value_bounded(s: Seq<PartialOrder>, i: int)
    requires
        0 <= i < s.len(),
    ensures
        0 <= fill_value(s[i]) <= total_value(s),
    decreases s.len(),
{
    let f = s[i];
    assert(f.amount * f.price >= 0) by (nonlinear_arith);
    lemma_total_value_nonneg(s.drop_last());
    if i < s.len() - 1 {
        lemma_fill_value_bounded(s.drop_last(), i);
        let l = s.last();
        assert(l.amount * l.price >= 0) by (nonlinear_arith);
    }
}

/// The fills of a sequence minus its first are worth what the sequence is
/// worth minus its first fill.
proof fn lemma_total_value_drop_first(s: Seq<PartialOrder>)
    requires
        s.len() > 0,
    ensures
        total_value(s) == fill_value(s[0]) + total_value(s.drop_first()),
    decreases s.len(),
{
    if s.len() == 1 {
        assert(s.drop_last() =~= Seq::<PartialOrder>::empty());
        assert(s.drop_first() =~= Seq::<PartialOrder>::empty());
    } else {
        lemma_total_value_drop_first(s.drop_last());
        assert(s.drop_last().drop_first() =~= s.drop_first().drop_last());
        assert(s.drop_first().last() == s.last());
    }
}

impl TradingPlatform {
    /// Processes an order and applies the outcome to the accounts involved.
    ///
    /// An order of an unknown signer is refused with `AccountNotFound`, a buy
    /// whose full price exceeds the signer's balance with
    /// `AccountUnderFunded` carrying that balance; neither changes anything.
    /// Otherwise the order goes through the matching engine and every fill
    /// is settled by a transfer from buyer to seller; if a transfer is
    /// refused, its error is returned and the book, the receipt history and
    /// the transfers made before it stand.
    #[verifier::loop_isolation(false)]
    pub fn order(&mut self, order: Order) -> (r: Result<Receipt, ApplicationError>)
        requires
            old(self).wf(),
            old(self).order_in_range(order),
        ensures
            final(self).wf(),
            final(self).accounts@.dom() == old(self).accounts@.dom(),
            old(self).accounts@.dom().finite() ==> total_balance(final(self).accounts@) == total_balance(
                old(self).accounts@,
            ),
            !old(self).accepts(order) ==> {
                &&& *final(self) == *old(self)
                &&& !old(self).accounts@.contains_key(order.signer@) ==> (r matches Err(e) && e@
                    == ErrorView::AccountNotFound(order.signer@))
                &&& old(self).accounts@.contains_key(order.signer@) ==> (r matches Err(e) && e@
                    == ErrorView::AccountUnderFunded(order.signer@, old(self).accounts@[order.signer@]))
            },
            old(self).accepts(order) ==> ({
                let ordinal = (old(self).matching_engine.ordinal + 1) as u64;
                let (book, fills) = book_after(old(self).matching_engine.book(), order, ordinal);
                let (balances, log, failure) = settle(
                    old(self).accounts@,
                    txs_view(old(self).transaction_log@),
                    fills,
                    order.side,
                    order.signer@,
                );
                &&& final(self).matching_engine.ordinal == ordinal
                &&& final(self).matching_engine.book() == book
                &&& receipts_view(final(self).matching_engine.history@) == receipts_view(
                    old(self).matching_engine.history@,
                ).push(ReceiptView { ordinal, matches: fills })
                &&& final(self).accounts@ == balances
                &&& txs_view(final(self).transaction_log@) == log
                &&& match failure {
                    None => r matches Ok(receipt) && receipt.ordinal == ordinal && receipt.matches@ == fills,
                    Some(e) => r matches Err(x) && x@ == e,
                }
            }),
    {
        if self.accounts.accounts.contains_key(order.signer.as_str()) {
            let acctbal = *self.accounts.accounts.get(order.signer.as_str()).unwrap();
            if order.side == Side::Buy && acctbal < order.amount * order.price {
                return Err(ApplicationError::AccountUnderFunded(order.signer, acctbal));
            }
            assert(old(self).accepts(order));
            let ghost m0 = self.accounts@;
            let ghost log0 = txs_view(self.transaction_log@);
            let receipt = match self.matching_engine.process(order.clone()) {
                Ok(receipt) => receipt,
                Err(e) => { return Err(e); },
            };
            let ghost fills = receipt.matches@;
            let ghost engine = self.matching_engine;
            proof {
                if m0.dom().finite() {
                    law_settlement_keeps_total(m0, log0, fills, order.side, order.signer@);
                }
                law_settlement_appends_only(m0, log0, fills, order.side, order.signer@);
            }
            let mut i: usize = 0;
            assert(fills.skip(0) =~= fills);
            while i < receipt.matches.len()
                invariant
                    self.matching_engine == engine,
                    fills == receipt.matches@,
                    i <= fills.len(),
                    total_value(fills.skip(i as int)) <= u64::MAX,
                    settle(m0, log0, fills, order.side, order.signer@) == settle(
                        self.accounts@,
                        txs_view(self.transaction_log@),
                        fills.skip(i as int),
                        order.side,
                        order.signer@,
                    ),
                decreases fills.len() - i,
            {
                let ghost rest = fills.skip(i as int);
                proof {
                    assert(rest[0] == fills[i as int]);
                    assert(rest.drop_first() =~= fills.skip(i as int + 1));
                    lemma_fill_value_bounded(rest, 0);
                    lemma_total_value_drop_first(rest);
                    lemma_total_value_nonneg(rest.drop_first());
                }
                let p_order = &receipt.matches[i];
                let amount = p_order.amount * p_order.price;
                let sent = match order.side {
                    Side::Buy => self.send(order.signer.as_str(), p_order.signer.as_str(), amount),
                    Side::Sell => self.send(p_order.signer.as_str(), order.signer.as_str(), amount),
                };
                match sent {
                    Ok(_) => {},
                    Err(e) => {
                        assert(amount == fill_value(rest[0]) as u64);
                        return Err(e);
                    },
                }
                i += 1;
            }
            assert(fills.skip(i as int) =~= Seq::<PartialOrder>::empty());
            Ok(receipt)
        } else {
            Err(ApplicationError::AccountNotFound(order.signer))
        }
    }
}


/// The entries of a book side, level by level in the given order, each
/// level's queue oldest first.
pub open spec fn flatten_levels(levels: Seq<LevelView>) -> Seq<PartialOrder>
    decreases levels.len(),
{
    if levels.len() == 0 {
        Seq::empty()
    } else {
        flatten_levels(levels.drop_last()) + levels.last().orders
    }
}

/// How many times `x` occurs in `s`.
pub open spec fn occurrences(s: Seq<PartialOrder>, x: PartialOrder) -> nat
    decreases s.len(),
{
    if s.len() == 0 {
        0
    } else {
        (if s[0] == x { 1nat } else { 0nat }) + occurrences(s.drop_first(), x)
    }
}

/// How many times `x` rests on a book side, over all its levels.
pub open spec fn side_occurrences(levels: Seq<LevelView>, x: PartialOrder) -> nat
    decreases levels.len(),
{
    if levels.len() == 0 {
        0
    } else {
        occurrences(levels[0].orders, x) + side_occurrences(levels.drop_first(), x)
    }
}

/// The number of entries resting on a book side.
pub open spec fn entry_count(levels: Seq<LevelView>) -> nat
    decreases levels.len(),
{
    if levels.len() == 0 {
        0
    } else {
        levels[0].orders.len() + entry_count(levels.drop_first())
    }
}

proof fn lemma_occurrences_append(a: Seq<PartialOrder>, b: Seq<PartialOrder>, x: PartialOrder)
    ensures
        occurrences(a + b, x) == occurrences(a, x) + occurrences(b, x),
    decreases a.len(),
{
    if a.len() == 0 {
        assert(a + b =~= b);
    } else {
        assert((a + b)[0] == a[0]);
        assert((a + b).drop_first() =~= a.drop_first() + b);
        lemma_occurrences_append(a.drop_first(), b, x);
    }
}

proof fn lemma_side_append(a: Seq<LevelView>, b: Seq<LevelView>, x: PartialOrder)
    ensures
        side_occurrences(a + b, x) == side_occurrences(a, x) + side_occurrences(b, x),
        entry_count(a + b) == entry_count(a) + entry_count(b),
    decreases a.len(),
{
    if a.len() == 0 {
        assert(a + b =~= b);
    } else {
        assert((a + b)[0] == a[0]);
        assert((a + b).drop_first() =~= a.drop_first() + b);
        lemma_side_append(a.drop_first(), b, x);
    }
}

proof fn lemma_side_single(l: LevelView, x: PartialOrder)
    ensures
        side_occurrences(seq![l], x) == occurrences(l.orders, x),
        entry_count(seq![l]) == l.orders.len(),
{
    assert(seq![l].drop_first() =~= Seq::<LevelView>::empty());
    assert(side_occurrences(Seq::<LevelView>::empty(), x) == 0);
    assert(entry_count(Seq::<LevelView>::empty()) == 0);
}

/// Flattening a side lists each of its entries exactly as often as it rests
/// there, and nothing else.
proof fn lemma_flatten_lists_entries(levels: Seq<LevelView>, x: PartialOrder)
    ensures
        occurrences(flatten_levels(levels), x) == side_occurrences(levels, x),
        flatten_levels(levels).len() == entry_count(levels),
    decreases levels.len(),
{
    if levels.len() > 0 {
        let init = levels.drop_last();
        lemma_flatten_lists_entries(init, x);
        lemma_occurrences_append(flatten_levels(init), levels.last().orders, x);
        assert(levels =~= init + seq![levels.last()]);
        lemma_side_append(init, seq![levels.last()], x);
        lemma_side_single(levels.last(), x);
    } else {
        assert(occurrences(Seq::<PartialOrder>::empty(), x) == 0);
    }
}

/// Listing a side's levels in reverse order lists the same entries.
proof fn lemma_reverse_lists_entries(levels: Seq<LevelView>, x: PartialOrder)
    ensures
        side_occurrences(levels.reverse(), x) == side_occurrences(levels, x),
        entry_count(levels.reverse()) == entry_count(levels),
    decreases levels.len(),
{
    if levels.len() > 0 {
        let tail = levels.drop_first();
        lemma_reverse_lists_entries(tail, x);
        assert(levels.reverse() =~= tail.reverse() + seq![levels[0]]);
        lemma_side_append(tail.reverse(), seq![levels[0]], x);
        lemma_side_single(levels[0], x);
    } else {
        assert(levels.reverse() =~= levels);
    }
}

/// The listing of the book holds every resting entry of both sides, each as
/// often as it rests there, and nothing else.
pub proof fn law_listing_holds_every_entry(book: BookView, x: PartialOrder)
    ensures
        occurrences(flatten_levels(book.bids.reverse()) + flatten_levels(book.asks), x) == side_occurrences(
            book.bids,
            x,
        ) + side_occurrences(book.asks, x),
        (flatten_levels(book.bids.reverse()) + flatten_levels(book.asks)).len() == entry_count(book.bids)
            + entry_count(book.asks),
{
    lemma_flatten_lists_entries(book.bids.reverse(), x);
    lemma_flatten_lists_entries(book.asks, x);
    lemma_reverse_lists_entries(book.bids, x);
    lemma_occurrences_append(flatten_levels(book.bids.reverse()), flatten_levels(book.asks), x);
}

impl TradingPlatform {
    /// Appends clones of `orders` to `out`.
    fn push_all(out: &mut Vec<PartialOrder>, orders: &Vec<PartialOrder>)
        ensures
            final(out)@ == old(out)@ + orders@,
    {
        let mut j: usize = 0;
        while j < orders.len()
            invariant
                j <= orders@.len(),
                out@ == old(out)@ + orders@.take(j as int),
            decreases orders@.len() - j,
        {
            out.push(orders[j].clone());
            j += 1;
            assert(out@ =~= old(out)@ + orders@.take(j as int));
        }
        assert(orders@.take(j as int) =~= orders@);
    }

    /// Fetches the complete order book at this time: the bids from the
    /// lowest price up, then the asks from the lowest price up, each level
    /// oldest order first.
    pub fn orderbook(&self) -> (r: Vec<PartialOrder>)
        ensures
            r@ == flatten_levels(self.matching_engine.book().bids.reverse()) + flatten_levels(
                self.matching_engine.book().asks,
            ),
            r@.len() == entry_count(self.matching_engine.book().bids) + entry_count(
                self.matching_engine.book().asks,
            ),
            forall|x: PartialOrder| #[trigger]
                occurrences(r@, x) == side_occurrences(self.matching_engine.book().bids, x)
                    + side_occurrences(self.matching_engine.book().asks, x),
    {
        let bids = &self.matching_engine.bids;
        let asks = &self.matching_engine.asks;
        let ghost rb = levels_view(bids@).reverse();
        let ghost va = levels_view(asks@);
        let mut out: Vec<PartialOrder> = Vec::new();
        let mut k: usize = 0;
        assert(rb.take(0) =~= Seq::<LevelView>::empty());
        while k < bids.len()
            invariant
                k <= bids@.len(),
                rb == levels_view(bids@).reverse(),
                out@ == flatten_levels(rb.take(k as int)),
            decreases bids@.len() - k,
        {
            let level = &bids[bids.len() - 1 - k];
            assert(rb[k as int] == level@);
            Self::push_all(&mut out, &level.orders);
            assert(rb.take(k as int + 1).drop_last() =~= rb.take(k as int));
            k += 1;
        }
        assert(rb.take(k as int) =~= rb);
        let ghost from_bids = out@;
        let mut k: usize = 0;
        assert(va.take(0) =~= Seq::<LevelView>::empty());
        assert(out@ =~= from_bids + flatten_levels(va.take(0)));
        while k < asks.len()
            invariant
                k <= asks@.len(),
                va == levels_view(asks@),
                out@ == from_bids + flatten_levels(va.take(k as int)),
            decreases asks@.len() - k,
        {
            let level = &asks[k];
            assert(va[k as int] == level@);
            Self::push_all(&mut out, &level.orders);
            assert(va.take(k as int + 1).drop_last() =~= va.take(k as int));
            assert(out@ =~= from_bids + flatten_levels(va.take(k as int + 1)));
            k += 1;
        }
        assert(va.take(k as int) =~= va);
        proof {
            let book = self.matching_engine.book();
            assert forall|x: PartialOrder| #[trigger]
                occurrences(out@, x) == side_occurrences(book.bids, x) + side_occurrences(book.asks, x) by {
                law_listing_holds_every_entry(book, x);
            }
            law_listing_holds_every_entry(book, arbitrary());
        }
        out
    }
}


/// When every fill is settled and none belongs to the order's own signer,
/// the signer has paid (for a buy) or received (for a sell) exactly the
/// fills' total price, no account was opened or closed, and two
/// transactions were logged per fill.
pub proof fn law_settlement_totals(
    m: Balances,
    log: Seq<TxView>,
    fills: Seq<PartialOrder>,
    side: Side,
    signer: Seq<char>,
)
    requires
        m.contains_key(signer),
        total_value(fills) <= u64::MAX,
        settle(m, log, fills, side, signer).2 is None,
        forall|k: int| 0 <= k < fills.len() ==> (#[trigger] fills[k]).signer@ != signer,
    ensures
        ({
            let (after, log_after, failure) = settle(m, log, fills, side, signer);
            &&& after.dom() == m.dom()
            &&& side == Side::Buy ==> after[signer] == m[signer] - total_value(fills)
            &&& side == Side::Sell ==> after[signer] == m[signer] + total_value(fills)
            &&& log_after.len() == log.len() + 2 * fills.len()
        }),
    decreases fills.len(),
{
    if fills.len() > 0 {
        let f = fills[0];
        let value = fill_value(f) as u64;
        let (payer, payee) = match side {
            Side::Buy => (signer, f.signer@),
            Side::Sell => (f.signer@, signer),
        };
        let (paid, outcome) = send_spec(m, payer, payee, value);
        let tail = fills.drop_first();
        lemma_total_value_drop_first(fills);
        lemma_fill_value_bounded(fills, 0);
        lemma_total_value_nonneg(tail);
        assert(outcome is Ok);
        crate::accounting::law_send_moves_amount(m, payer, payee, value);
        assert forall|k: int| 0 <= k < tail.len() implies (#[trigger] tail[k]).signer@ != signer by {
            assert(tail[k] == fills[k + 1]);
        }
        let (w, d) = outcome->Ok_0;
        law_settlement_totals(paid, log.push(w).push(d), tail, side, signer);
    }
}

/// On a well-formed book, an order whose fills are all settled leaves its
/// signer poorer (buy) or richer (sell) by exactly the fills' total price:
/// the order never trades with its own signer.
pub proof fn law_order_pays_total_price(
    book: BookView,
    max_ordinal: u64,
    m: Balances,
    log: Seq<TxView>,
    order: Order,
)
    requires
        crate::matching::side_ok(book.bids, Side::Buy, max_ordinal),
        crate::matching::side_ok(book.asks, Side::Sell, max_ordinal),
        max_ordinal < u64::MAX,
        m.contains_key(order.signer@),
        total_value(book_after(book, order, (max_ordinal + 1) as u64).1) <= u64::MAX,
    ensures
        ({
            let fills = book_after(book, order, (max_ordinal + 1) as u64).1;
            let (after, log_after, failure) = settle(m, log, fills, order.side, order.signer@);
            failure is None ==> {
                &&& order.side == Side::Buy ==> after[order.signer@] == m[order.signer@] - total_value(fills)
                &&& order.side == Side::Sell ==> after[order.signer@] == m[order.signer@] + total_value(fills)
            }
        }),
{
    let fills = book_after(book, order, (max_ordinal + 1) as u64).1;
    crate::matching_laws::law_process_fills(book, order, max_ordinal, (max_ordinal + 1) as u64);
    if settle(m, log, fills, order.side, order.signer@).2 is None {
        law_settlement_totals(m, log, fills, order.side, order.signer@);
    }
}


/// The total price of `fills`, if it fits in a `u64`.
fn checked_total_value(fills: &Vec<PartialOrder>) -> (r: Option<u64>)
    ensures
        r matches Some(v) ==> v == total_value(fills@),
        r is None <==> total_value(fills@) > u64::MAX,
{
    let mut total: u64 = 0;
    let mut i: usize = 0;
    while i < fills.len()
        invariant
            i <= fills@.len(),
            total == total_value(fills@.take(i as int)),
        decreases fills@.len() - i,
    {
        let f = &fills[i];
        assert(fills@.take(i as int + 1).drop_last() =~= fills@.take(i as int));
        let next = match f.amount.checked_mul(f.price) {
            Some(v) => total.checked_add(v),
            None => None,
        };
        match next {
            Some(t) => { total = t; },
            None => {
                proof {
                    let s = fills@;
                    assert(f.amount * f.price >= 0) by (nonlinear_arith);
                    lemma_total_value_prefix(s, i as int + 1);
                }
                return None;
            },
        }
        i += 1;
    }
    assert(fills@.take(i as int) =~= fills@);
    Some(total)
}

/// The fills of a prefix are worth no more than all the fills.
proof fn lemma_total_value_prefix(s: Seq<PartialOrder>, i: int)
    requires
        0 <= i <= s.len(),
    ensures
        total_value(s.take(i)) <= total_value(s),
    decreases s.len() - i,
{
    if i < s.len() {
        lemma_total_value_prefix(s, i + 1);
        assert(s.take(i + 1).drop_last() =~= s.take(i));
        let f = s[i];
        assert(f.amount * f.price >= 0) by (nonlinear_arith);
    } else {
        assert(s.take(i) =~= s);
    }
}

impl TradingPlatform {
    /// Places `order` only when it stays within machine integers
    /// ([`TradingPlatform::order_in_range`]); returns `None`, changing
    /// nothing, when it would not.
    pub fn checked_order(&mut self, order: Order) -> (r: Option<Result<Receipt, ApplicationError>>)
        requires
            old(self).wf(),
        ensures
            final(self).wf(),
            final(self).accounts@.dom() == old(self).accounts@.dom(),
            old(self).accounts@.dom().finite() ==> total_balance(final(self).accounts@) == total_balance(
                old(self).accounts@,
            ),
            r is None <==> !old(self).order_in_range(order),
            r is None ==> *final(self) == *old(self),
            r matches Some(placed) ==> old(self).order_in_range(order) && ({
                let ordinal = (old(self).matching_engine.ordinal + 1) as u64;
                let (book, fills) = book_after(old(self).matching_engine.book(), order, ordinal);
                let (balances, log, failure) = settle(
                    old(self).accounts@,
                    txs_view(old(self).transaction_log@),
                    fills,
                    order.side,
                    order.signer@,
                );
                &&& !old(self).accepts(order) ==> {
                    &&& *final(self) == *old(self)
                    &&& !old(self).accounts@.contains_key(order.signer@) ==> (placed matches Err(e) && e@
                        == ErrorView::AccountNotFound(order.signer@))
                    &&& old(self).accounts@.contains_key(order.signer@) ==> (placed matches Err(e) && e@
                        == ErrorView::AccountUnderFunded(order.signer@, old(self).accounts@[order.signer@]))
                }
                &&& old(self).accepts(order) ==> {
                    &&& final(self).matching_engine.ordinal == ordinal
                    &&& final(self).matching_engine.book() == book
                    &&& receipts_view(final(self).matching_engine.history@) == receipts_view(
                        old(self).matching_engine.history@,
                    ).push(ReceiptView { ordinal, matches: fills })
                    &&& final(self).accounts@ == balances
                    &&& txs_view(final(self).transaction_log@) == log
                    &&& match failure {
                        None => placed matches Ok(receipt) && receipt.ordinal == ordinal && receipt.matches@ == fills,
                        Some(e) => placed matches Err(x) && x@ == e,
                    }
                }
            }),
    {
        match self.accounts.accounts.get(order.signer.as_str()) {
            Some(balance) => {
                let balance = *balance;
                let is_buy = order.side == Side::Buy;
                let full_price = order.amount.checked_mul(order.price);
                if is_buy && full_price.is_none() {
                    return None;
                }
                let refused = match full_price {
                    Some(p) => is_buy && balance < p,
                    None => false,
                };
                if !refused {
                    if self.matching_engine.ordinal == u64::MAX {
                        return None;
                    }
                    let fills = self.matching_engine.preview_fills(&order);
                    if checked_total_value(&fills).is_none() {
                        return None;
                    }
                }
            },
            None => {},
        }
        Some(self.order(order))
    }
}


/// Settlement never opens or closes an account and only appends to the
/// transaction log, two entries per settled fill.
pub proof fn law_settlement_appends_only(
    m: Balances,
    log: Seq<TxView>,
    fills: Seq<PartialOrder>,
    side: Side,
    signer: Seq<char>,
)
    ensures
        ({
            let (after, log_after, failure) = settle(m, log, fills, side, signer);
            &&& after.dom() == m.dom()
            &&& log_after.len() >= log.len()
            &&& log_after.subrange(0, log.len() as int) == log
            &&& (log_after.len() - log.len()) % 2 == 0
            &&& log_after.len() - log.len() <= 2 * fills.len()
        }),
    decreases fills.len(),
{
    if fills.len() > 0 {
        let f = fills[0];
        let value = fill_value(f) as u64;
        let (payer, payee) = match side {
            Side::Buy => (signer, f.signer@),
            Side::Sell => (f.signer@, signer),
        };
        let (paid, outcome) = send_spec(m, payer, payee, value);
        if outcome is Ok {
            let (w, d) = outcome->Ok_0;
            let next = log.push(w).push(d);
            crate::accounting::law_send_moves_amount(m, payer, payee, value);
            law_settlement_appends_only(paid, next, fills.drop_first(), side, signer);
            let log_after = settle(paid, next, fills.drop_first(), side, signer).1;
            assert(log_after.subrange(0, log.len() as int) =~= next.subrange(0, next.len() as int).subrange(
                0,
                log.len() as int,
            ));
            assert(next.subrange(0, log.len() as int) =~= log);
        } else {
            assert(log.subrange(0, log.len() as int) =~= log);
        }
    } else {
        assert(log.subrange(0, log.len() as int) =~= log);
    }
}


/// Settlement, however far it gets, leaves the sum of all balances and the
/// set of accounts unchanged: fills only move money from buyer to seller.
pub proof fn law_settlement_keeps_total(
    m: Balances,
    log: Seq<TxView>,
    fills: Seq<PartialOrder>,
    side: Side,
    signer: Seq<char>,
)
    requires
        m.dom().finite(),
    ensures
        settle(m, log, fills, side, signer).0.dom() == m.dom(),
        total_balance(settle(m, log, fills, side, signer).0) == total_balance(m),
    decreases fills.len(),
{
    if fills.len() > 0 {
        let f = fills[0];
        let value = fill_value(f) as u64;
        let (payer, payee) = match side {
            Side::Buy => (signer, f.signer@),
            Side::Sell => (f.signer@, signer),
        };
        let (paid, outcome) = send_spec(m, payer, payee, value);
        crate::accounting::law_send_keeps_total(m, payer, payee, value);
        if outcome is Ok {
            let (w, d) = outcome->Ok_0;
            law_settlement_keeps_total(paid, log.push(w).push(d), fills.drop_first(), side, signer);
        }
    }
}


/// The total price of the fills taken from `party`'s entries.
pub open spec fn value_for(fills: Seq<PartialOrder>, party: Seq<char>) -> int
    decreases fills.len(),
{
    if fills.len() == 0 {
        0
    } else {
        (if fills[0].signer@ == party { fill_value(fills[0]) } else { 0 }) + value_for(fills.drop_first(), party)
    }
}

/// Who pays for a fill of an order of `side` placed by `signer`: the order's
/// signer for a buy, the filled entry's signer for a sell.
pub open spec fn buyer_of(f: PartialOrder, side: Side, signer: Seq<char>) -> Seq<char> {
    match side {
        Side::Buy => signer,
        Side::Sell => f.signer@,
    }
}

/// Who is paid for a fill of an order of `side` placed by `signer`.
pub open spec fn seller_of(f: PartialOrder, side: Side, signer: Seq<char>) -> Seq<char> {
    match side {
        Side::Buy => f.signer@,
        Side::Sell => signer,
    }
}

/// When every fill is settled, each fill was settled between its own two
/// parties: every counterparty of the order (an account other than the
/// order's signer) received, for a buy, or paid, for a sell, exactly the
/// price of the fills taken from its own entries.
pub proof fn law_settlement_pays_each_counterparty(
    m: Balances,
    log: Seq<TxView>,
    fills: Seq<PartialOrder>,
    side: Side,
    signer: Seq<char>,
    party: Seq<char>,
)
    requires
        m.contains_key(signer),
        m.contains_key(party),
        party != signer,
        total_value(fills) <= u64::MAX,
        settle(m, log, fills, side, signer).2 is None,
        forall|k: int| 0 <= k < fills.len() ==> (#[trigger] fills[k]).signer@ != signer,
    ensures
        side == Side::Buy ==> settle(m, log, fills, side, signer).0[party] == m[party] + value_for(fills, party),
        side == Side::Sell ==> settle(m, log, fills, side, signer).0[party] == m[party] - value_for(fills, party),
    decreases fills.len(),
{
    if fills.len() > 0 {
        let f = fills[0];
        let value = fill_value(f) as u64;
        let payer = buyer_of(f, side, signer);
        let payee = seller_of(f, side, signer);
        let (paid, outcome) = send_spec(m, payer, payee, value);
        let tail = fills.drop_first();
        lemma_total_value_drop_first(fills);
        lemma_fill_value_bounded(fills, 0);
        lemma_total_value_nonneg(tail);
        assert(outcome is Ok);
        crate::accounting::law_send_moves_amount(m, payer, payee, value);
        assert forall|k: int| 0 <= k < tail.len() implies (#[trigger] tail[k]).signer@ != signer by {
            assert(tail[k] == fills[k + 1]);
        }
        let (w, d) = outcome->Ok_0;
        law_settlement_pays_each_counterparty(paid, log.push(w).push(d), tail, side, signer, party);
    }
}

/// When every fill is settled, the log gained, for each fill in order, a
/// withdrawal of exactly the fill's price from its buyer followed by a
/// deposit of exactly that price into its seller, and nothing else.
pub proof fn law_settlement_logs_each_fill(
    m: Balances,
    log: Seq<TxView>,
    fills: Seq<PartialOrder>,
    side: Side,
    signer: Seq<char>,
)
    requires
        total_value(fills) <= u64::MAX,
        settle(m, log, fills, side, signer).2 is None,
    ensures
        ({
            let log_after = settle(m, log, fills, side, signer).1;
            &&& log_after.len() == log.len() + 2 * fills.len()
            &&& log_after.subrange(0, log.len() as int) == log
            &&& forall|k: int|
                #![trigger fills[k]]
                0 <= k < fills.len() ==> {
                    &&& log_after[log.len() + 2 * k] == (TxView::Withdraw {
                        account: buyer_of(fills[k], side, signer),
                        amount: fill_value(fills[k]) as u64,
                    })
                    &&& log_after[log.len() + 2 * k + 1] == (TxView::Deposit {
                        account: seller_of(fills[k], side, signer),
                        amount: fill_value(fills[k]) as u64,
                    })
                }
        }),
    decreases fills.len(),
{
    if fills.len() == 0 {
        assert(log.subrange(0, log.len() as int) =~= log);
    } else {
        let f = fills[0];
        let value = fill_value(f) as u64;
        let payer = buyer_of(f, side, signer);
        let payee = seller_of(f, side, signer);
        let (paid, outcome) = send_spec(m, payer, payee, value);
        let tail = fills.drop_first();
        lemma_total_value_drop_first(fills);
        lemma_fill_value_bounded(fills, 0);
        lemma_total_value_nonneg(tail);
        assert(outcome is Ok);
        crate::accounting::law_send_records_amount(m, payer, payee, value);
        let (w, d) = outcome->Ok_0;
        let next = log.push(w).push(d);
        law_settlement_logs_each_fill(paid, next, tail, side, signer);
        let log_after = settle(paid, next, tail, side, signer).1;
        assert(log_after.subrange(0, log.len() as int) =~= log) by {
            assert forall|i: int| 0 <= i < log.len() implies log_after[i] == log[i] by {
                assert(log_after.subrange(0, next.len() as int)[i] == next[i]);
            }
        }
        assert(log_after[log.len() as int] == w) by {
            assert(log_after.subrange(0, next.len() as int)[log.len() as int] == next[log.len() as int]);
        }
        assert(log_after[log.len() as int + 1] == d) by {
            assert(log_after.subrange(0, next.len() as int)[log.len() as int + 1] == next[log.len() as int + 1]);
        }
        assert forall|k: int| #![trigger fills[k]] 0 <= k < fills.len() implies {
            &&& log_after[log.len() + 2 * k] == (TxView::Withdraw {
                account: buyer_of(fills[k], side, signer),
                amount: fill_value(fills[k]) as u64,
            })
            &&& log_after[log.len() + 2 * k + 1] == (TxView::Deposit {
                account: seller_of(fills[k], side, signer),
                amount: fill_value(fills[k]) as u64,
            })
        } by {
            if k > 0 {
                assert(tail[k - 1] == fills[k]);
                assert(next.len() + 2 * (k - 1) == log.len() + 2 * k);
            }
        }
    }
}

} // verus!
