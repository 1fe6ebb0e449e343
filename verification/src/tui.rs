//! The state of the terminal order book viewer: whether it runs, the book
//! it shows, and the tick count that paces refreshes from the server.
use vstd::prelude::*;
use crate::requests::OrderBookResponse;
use crate::types::PartialOrder;

verus! {

/// The number of ticks between two refreshes of the book.
pub const TICKS_PER_REFRESH: u64 = 30;

/// Events the application raises for itself.
#[derive(Debug, PartialEq, Eq, Structural)]
pub enum AppEvent {
    Quit,
}

/// The keys the application tells apart.
#[derive(Debug, PartialEq, Eq, Structural)]
pub enum KeyInput {
    Esc,
    Char(char),
    Other,
}

/// Whether a key press asks the application to stop: Esc, `q`, or
/// Control-C (either case) with no other modifier.
pub open spec fn quits(code: KeyInput, control_only: bool) -> bool {
    ||| code == KeyInput::Esc
    ||| code == KeyInput::Char('q')
    ||| (control_only && (code == KeyInput::Char('c') || code == KeyInput::Char('C')))
}

/// Whether entry `a` goes strictly before `b` in a book listing ordered by
/// increasing (`ascending`) or decreasing price.
pub open spec fn goes_before(ascending: bool, a: u64, b: u64) -> bool {
    if ascending {
        a < b
    } else {
        a > b
    }
}

fn goes_before_exec(ascending: bool, a: u64, b: u64) -> (r: bool)
    ensures
        r == goes_before(ascending, a, b),
{
    if ascending {
        a < b
    } else {
        a > b
    }
}

/// The listing is ordered by price, increasing or decreasing.
pub open spec fn sorted_by_price(s: Seq<PartialOrder>, ascending: bool) -> bool {
    forall|i: int, j: int| 0 <= i < j < s.len() ==> !goes_before(ascending, #[trigger] s[j].price, #[trigger] s[i].price)
}

/// The entries of `s` at price `p`, in their order in `s`.
pub open spec fn at_price(s: Seq<PartialOrder>, p: u64) -> Seq<PartialOrder>
    decreases s.len(),
{
    if s.len() == 0 {
        Seq::empty()
    } else if s.last().price == p {
        at_price(s.drop_last(), p).push(s.last())
    } else {
        at_price(s.drop_last(), p)
    }
}

proof fn lemma_at_price_append(a: Seq<PartialOrder>, b: Seq<PartialOrder>, p: u64)
    ensures
        at_price(a + b, p) == at_price(a, p) + at_price(b, p),
    decreases b.len(),
{
    if b.len() == 0 {
        assert(a + b =~= a);
        assert(at_price(a, p) + at_price(b, p) =~= at_price(a, p));
    } else {
        lemma_at_price_append(a, b.drop_last(), p);
        assert((a + b).drop_last() =~= a + b.drop_last());
        assert((a + b).last() == b.last());
        if b.last().price == p {
            assert(at_price(a, p) + at_price(b.drop_last(), p).push(b.last()) =~= (at_price(a, p) + at_price(
                b.drop_last(),
                p,
            )).push(b.last()));
        }
    }
}

proof fn lemma_at_price_none(s: Seq<PartialOrder>, p: u64)
    requires
        forall|k: int| 0 <= k < s.len() ==> (#[trigger] s[k]).price != p,
    ensures
        at_price(s, p) == Seq::<PartialOrder>::empty(),
    decreases s.len(),
{
    if s.len() > 0 {
        let t = s.drop_last();
        assert forall|k: int| 0 <= k < t.len() implies (#[trigger] t[k]).price != p by {
            assert(t[k] == s[k]);
        }
        lemma_at_price_none(t, p);
    }
}

proof fn lemma_at_price_single(x: PartialOrder, p: u64)
    ensures
        at_price(seq![x], p) == (if x.price == p { seq![x] } else { Seq::<PartialOrder>::empty() }),
{
    assert(seq![x].drop_last() =~= Seq::<PartialOrder>::empty());
    assert(at_price(Seq::<PartialOrder>::empty(), p) == Seq::<PartialOrder>::empty());
    assert(Seq::<PartialOrder>::empty().push(x) =~= seq![x]);
}

/// Orders `v` by price, increasing or decreasing, keeping entries of equal
/// price in the order they came in.
pub fn sort_by_price(v: Vec<PartialOrder>, ascending: bool) -> (r: Vec<PartialOrder>)
    ensures
        sorted_by_price(r@, ascending),
        forall|p: u64| #[trigger] at_price(r@, p) == at_price(v@, p),
{
    let mut r: Vec<PartialOrder> = Vec::new();
    let mut i: usize = 0;
    while i < v.len()
        invariant
            i <= v@.len(),
            sorted_by_price(r@, ascending),
            forall|p: u64| #[trigger] at_price(r@, p) == at_price(v@.take(i as int), p),
        decreases v@.len() - i,
    {
        let x = v[i].clone();
        let mut k: usize = 0;
        while k < r.len() && !goes_before_exec(ascending, x.price, r[k].price)
            invariant
                k <= r@.len(),
                forall|j: int| 0 <= j < k ==> !goes_before(ascending, x.price, #[trigger] r@[j].price),
            decreases r@.len() - k,
        {
            k += 1;
        }
        let ghost old_r = r@;
        proof {
            if k < old_r.len() {
                assert(goes_before(ascending, x.price, old_r[k as int].price));
            }
        }
        r.insert(k, x);
        proof {
            let front = old_r.take(k as int);
            let back = old_r.skip(k as int);
            assert(old_r =~= front + back);
            assert(r@ =~= front + (seq![x] + back));
            assert forall|a: int, b: int| 0 <= a < b < r@.len() implies !goes_before(
                ascending,
                #[trigger] r@[b].price,
                #[trigger] r@[a].price,
            ) by {
                if b < k {
                    assert(r@[a] == old_r[a] && r@[b] == old_r[b]);
                } else if b == k {
                    assert(r@[a] == old_r[a]);
                } else if a < k {
                    assert(r@[a] == old_r[a] && r@[b] == old_r[b - 1]);
                    assert(!goes_before(ascending, old_r[b - 1].price, old_r[a].price));
                } else if a == k {
                    assert(r@[b] == old_r[b - 1]);
                    assert(!goes_before(ascending, old_r[b - 1].price, old_r[k as int].price) || b - 1 == k);
                } else {
                    assert(r@[a] == old_r[a - 1] && r@[b] == old_r[b - 1]);
                }
            }
            assert(v@.take(i as int + 1) =~= v@.take(i as int) + seq![x]);
            assert forall|p: u64| #[trigger] at_price(r@, p) == at_price(v@.take(i as int + 1), p) by {
                lemma_at_price_append(front, seq![x] + back, p);
                lemma_at_price_append(seq![x], back, p);
                lemma_at_price_append(front, back, p);
                lemma_at_price_append(v@.take(i as int), seq![x], p);
                lemma_at_price_single(x, p);
                if x.price == p {
                    assert forall|j: int| 0 <= j < back.len() implies (#[trigger] back[j]).price != p by {
                        assert(back[j] == old_r[k + j]);
                        assert(goes_before(ascending, x.price, old_r[k as int].price));
                        assert(!goes_before(ascending, old_r[k + j].price, old_r[k as int].price) || j == 0);
                    }
                    lemma_at_price_none(back, p);
                    assert(at_price(old_r, p) =~= at_price(front, p) + Seq::<PartialOrder>::empty());
                    assert(at_price(r@, p) =~= at_price(front, p) + (seq![x] + Seq::<PartialOrder>::empty()));
                    assert(at_price(r@, p) =~= at_price(old_r, p) + seq![x]);
                } else {
                    assert(at_price(r@, p) =~= at_price(front, p) + (Seq::<PartialOrder>::empty() + at_price(back, p)));
                    assert(at_price(r@, p) =~= at_price(old_r, p));
                    assert(at_price(v@.take(i as int + 1), p) =~= at_price(v@.take(i as int), p));
                }
            }
        }
        i += 1;
    }
    assert(v@.take(i as int) =~= v@);
    r
}

/// The application's state.
pub struct App {
    /// Is the application running?
    pub running: bool,
    /// The buy orders shown, highest price first.
    pub bids: Vec<PartialOrder>,
    /// The sell orders shown, lowest price first.
    pub asks: Vec<PartialOrder>,
    /// The ticks counted since the start.
    pub tickct: u64,
}

impl Default for App {
    /// A running application showing an empty book.
    fn default() -> (r: Self)
        ensures
            r.running,
            r.bids@.len() == 0,
            r.asks@.len() == 0,
            r.tickct == 0,
    {
        App { running: true, bids: Vec::new(), asks: Vec::new(), tickct: 0 }
    }
}

impl App {
    /// A running application showing an empty book.
    pub fn new() -> (r: Self)
        ensures
            r.running,
            r.bids@.len() == 0,
            r.asks@.len() == 0,
            r.tickct == 0,
    {
        Self::default()
    }

    /// The event a key press raises, if any.
    pub fn handle_key_events(&self, code: KeyInput, control_only: bool) -> (r: Option<AppEvent>)
        ensures
            r == (if quits(code, control_only) {
                Some(AppEvent::Quit)
            } else {
                None
            }),
    {
        let quit = match code {
            KeyInput::Esc => true,
            KeyInput::Char(c) => c == 'q' || (control_only && (c == 'c' || c == 'C')),
            KeyInput::Other => false,
        };
        if quit {
            Some(AppEvent::Quit)
        } else {
            None
        }
    }

    /// Counts one tick; returns whether the book is due for a refresh, which
    /// is every `TICKS_PER_REFRESH`-th tick.
    pub fn tick(&mut self) -> (refresh: bool)
        requires
            old(self).tickct < u64::MAX,
        ensures
            final(self).tickct == old(self).tickct + 1,
            refresh == (final(self).tickct % TICKS_PER_REFRESH == 0),
            final(self).running == old(self).running,
            final(self).bids@ == old(self).bids@,
            final(self).asks@ == old(self).asks@,
    {
        self.tickct += 1;
        self.tickct % TICKS_PER_REFRESH == 0
    }

    /// Shows a freshly fetched book: asks by increasing price, bids by
    /// decreasing price, entries of equal price in the order received.
    pub fn show_orderbook(&mut self, book: OrderBookResponse)
        ensures
            final(self).running == old(self).running,
            final(self).tickct == old(self).tickct,
            sorted_by_price(final(self).asks@, true),
            sorted_by_price(final(self).bids@, false),
            forall|p: u64| #[trigger] at_price(final(self).asks@, p) == at_price(book.asks@, p),
            forall|p: u64| #[trigger] at_price(final(self).bids@, p) == at_price(book.bids@, p),
    {
        let OrderBookResponse { bids, asks } = book;
        self.asks = sort_by_price(asks, true);
        self.bids = sort_by_price(bids, false);
    }

    /// Sets running to false to quit the application.
    pub fn quit(&mut self)
        ensures
            !final(self).running,
            final(self).tickct == old(self).tickct,
            final(self).bids@ == old(self).bids@,
            final(self).asks@ == old(self).asks@,
    {
        self.running = false;
    }
}

} // verus!
