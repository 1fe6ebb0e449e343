//! The matching engine: two book sides of price levels, each level a queue
//! of resting orders in arrival order, and the price-time matching of
//! incoming orders against the opposite side.
use vstd::prelude::*;
use crate::types::{ApplicationError, Order, PartialOrder, Receipt, Side, taken_from};

verus! {

/// The orders resting at one price, oldest first.
pub struct PriceLevel {
    pub price: u64,
    pub orders: Vec<PartialOrder>,
}

/// A price level with its queue taken as a sequence.
pub struct LevelView {
    pub price: u64,
    pub orders: Seq<PartialOrder>,
}

impl View for PriceLevel {
    type V = LevelView;

    open spec fn view(&self) -> LevelView {
        LevelView { price: self.price, orders: self.orders@ }
    }
}

/// The views of a sequence of price levels.
pub open spec fn levels_view(levels: Seq<PriceLevel>) -> Seq<LevelView> {
    levels.map_values(|l: PriceLevel| l@)
}

/// Both sides of the book: bids best (highest) price first, asks best
/// (lowest) price first.
pub struct BookView {
    pub bids: Seq<LevelView>,
    pub asks: Seq<LevelView>,
}

/// A receipt with its matches taken as a sequence.
pub struct ReceiptView {
    pub ordinal: u64,
    pub matches: Seq<PartialOrder>,
}

impl View for Receipt {
    type V = ReceiptView;

    open spec fn view(&self) -> ReceiptView {
        ReceiptView { ordinal: self.ordinal, matches: self.matches@ }
    }
}

/// The views of a sequence of receipts.
pub open spec fn receipts_view(rs: Seq<Receipt>) -> Seq<ReceiptView> {
    rs.map_values(|r: Receipt| r@)
}

/// Whether price `a` comes before price `b` on the book side that holds
/// orders of `side`: bids go from the highest price down, asks from the
/// lowest up.
pub open spec fn precedes(side: Side, a: u64, b: u64) -> bool {
    match side {
        Side::Buy => a > b,
        Side::Sell => a < b,
    }
}

/// Whether a level at `level_price` can fill an incoming order of side
/// `incoming` limited at `limit`.
pub open spec fn crosses(incoming: Side, limit: u64, level_price: u64) -> bool {
    match incoming {
        Side::Buy => level_price <= limit,
        Side::Sell => level_price >= limit,
    }
}

/// Every entry of the queue rests at `price` on the `side` book with some
/// quantity left, carries a sequence number no larger than `max_ordinal`,
/// and the queue is in strictly increasing sequence order.
pub open spec fn queue_ok(q: Seq<PartialOrder>, price: u64, side: Side, max_ordinal: u64) -> bool {
    &&& forall|i: int|
        #![trigger q[i]]
        0 <= i < q.len() ==> {
            &&& q[i].price == price
            &&& q[i].side == side
            &&& q[i].remaining > 0
            &&& q[i].ordinal <= max_ordinal
        }
    &&& forall|i: int, j: int| #![trigger q[i], q[j]] 0 <= i < j < q.len() ==> q[i].ordinal < q[j].ordinal
}

/// A well-formed book side: non-empty, well-formed queues at prices in
/// strictly better-first order.
pub open spec fn side_ok(levels: Seq<LevelView>, side: Side, max_ordinal: u64) -> bool {
    &&& forall|i: int|
        0 <= i < levels.len() ==> {
            &&& #[trigger] levels[i].orders.len() > 0
            &&& queue_ok(levels[i].orders, levels[i].price, side, max_ordinal)
        }
    &&& forall|i: int, j: int|
        0 <= i < j < levels.len() ==> precedes(side, levels[i].price, levels[j].price)
}

/// Every level of `levels` lies strictly after price `p`.
pub open spec fn all_after(levels: Seq<LevelView>, side: Side, p: u64) -> bool {
    forall|k: int| 0 <= k < levels.len() ==> precedes(side, p, #[trigger] levels[k].price)
}

/// Every entry of `q` has a sequence number larger than `b`.
pub open spec fn all_above(q: Seq<PartialOrder>, b: u64) -> bool {
    forall|k: int| 0 <= k < q.len() ==> #[trigger] q[k].ordinal > b
}

/// The total quantity of a sequence of entries.
pub open spec fn total_amount(s: Seq<PartialOrder>) -> int
    decreases s.len(),
{
    if s.len() == 0 {
        0
    } else {
        total_amount(s.drop_last()) + s.last().amount
    }
}

/// Matching `need` units of an order from `signer` against one queue at
/// `price`: the queue left behind, the fills in order, and what is still
/// unfilled.
///
/// Entries are taken oldest first. Entries of the same signer are skipped
/// and stay. An entry holding at least what is needed is reduced by it and
/// stays if anything is left; a smaller one is filled completely and leaves.
pub open spec fn match_queue(q: Seq<PartialOrder>, signer: Seq<char>, need: u64, price: u64)
    -> (Seq<PartialOrder>, Seq<PartialOrder>, u64)
    decreases q.len(),
{
    if q.len() == 0 || need == 0 {
        (q, Seq::empty(), need)
    } else {
        let head = q[0];
        let tail = q.drop_first();
        if head.signer@ == signer {
            let (rest, fills, left) = match_queue(tail, signer, need, price);
            (seq![head] + rest, fills, left)
        } else if head.remaining >= need {
            let kept = if head.remaining > need {
                seq![PartialOrder { remaining: (head.remaining - need) as u64, ..head }]
            } else {
                Seq::empty()
            };
            (kept + tail, seq![taken_from(head, need, price)], 0)
        } else {
            let filled = PartialOrder { amount: head.remaining, remaining: 0, ..head };
            let (rest, fills, left) = match_queue(tail, signer, (need - head.remaining) as u64, price);
            (rest, seq![filled] + fills, left)
        }
    }
}

/// Matching `need` units of an order of side `incoming` from `signer`,
/// limited at `limit`, against the opposite book side `levels` (best price
/// first): the side left behind, the fills in order, and what is still
/// unfilled.
///
/// Levels are visited best first while they cross the limit and something
/// is needed; a level whose queue is used up disappears.
pub open spec fn match_levels(levels: Seq<LevelView>, incoming: Side, limit: u64, signer: Seq<char>, need: u64)
    -> (Seq<LevelView>, Seq<PartialOrder>, u64)
    decreases levels.len(),
{
    if levels.len() == 0 || need == 0 || !crosses(incoming, limit, levels[0].price) {
        (levels, Seq::empty(), need)
    } else {
        let level = levels[0];
        let (queue, fills, left) = match_queue(level.orders, signer, need, level.price);
        let (rest, more, left2) = match_levels(levels.drop_first(), incoming, limit, signer, left);
        let head = if queue.len() == 0 {
            Seq::empty()
        } else {
            seq![LevelView { price: level.price, orders: queue }]
        };
        (head + rest, fills + more, left2)
    }
}

/// The side `levels` (of orders of `side`) after `entry` is queued at its
/// price: at the back of an existing level, or in a new level placed in
/// price order.
pub open spec fn rest_order(levels: Seq<LevelView>, entry: PartialOrder, side: Side) -> Seq<LevelView>
    decreases levels.len(),
{
    if levels.len() == 0 {
        seq![LevelView { price: entry.price, orders: seq![entry] }]
    } else if levels[0].price == entry.price {
        seq![LevelView { price: entry.price, orders: levels[0].orders.push(entry) }] + levels.drop_first()
    } else if precedes(side, entry.price, levels[0].price) {
        seq![LevelView { price: entry.price, orders: seq![entry] }] + levels
    } else {
        seq![levels[0]] + rest_order(levels.drop_first(), entry, side)
    }
}

/// The entry an order leaves in the book when `left` of it is unfilled.
pub open spec fn resting(order: Order, ordinal: u64, left: u64) -> PartialOrder {
    PartialOrder {
        price: order.price,
        amount: left,
        remaining: left,
        side: order.side,
        signer: order.signer,
        ordinal,
    }
}

/// The book after processing `order` under sequence number `ordinal`, and
/// the fills it produced.
///
/// The order is matched against the opposite side; whatever is left of it
/// rests on its own side.
pub open spec fn book_after(book: BookView, order: Order, ordinal: u64) -> (BookView, Seq<PartialOrder>) {
    match order.side {
        Side::Buy => {
            let (asks, fills, left) = match_levels(book.asks, Side::Buy, order.price, order.signer@, order.amount);
            let bids = if left > 0 {
                rest_order(book.bids, resting(order, ordinal, left), Side::Buy)
            } else {
                book.bids
            };
            (BookView { bids, asks }, fills)
        },
        Side::Sell => {
            let (bids, fills, left) = match_levels(book.bids, Side::Sell, order.price, order.signer@, order.amount);
            let asks = if left > 0 {
                rest_order(book.asks, resting(order, ordinal, left), Side::Sell)
            } else {
                book.asks
            };
            (BookView { bids, asks }, fills)
        },
    }
}


/// The total quantity of two sequences put together is the sum of theirs.
pub proof fn lemma_total_amount_append(a: Seq<PartialOrder>, b: Seq<PartialOrder>)
    ensures
        total_amount(a + b) == total_amount(a) + total_amount(b),
    decreases b.len(),
{
    if b.len() == 0 {
        assert(a + b =~= a);
    } else {
        lemma_total_amount_append(a, b.drop_last());
        assert((a + b).drop_last() =~= a + b.drop_last());
    }
}

proof fn lemma_total_amount_single(x: PartialOrder)
    ensures
        total_amount(seq![x]) == x.amount,
{
    assert(seq![x].drop_last() =~= Seq::<PartialOrder>::empty());
    assert(total_amount(Seq::<PartialOrder>::empty()) == 0);
}

/// Matching one queue neither creates nor loses quantity: the fills and the
/// unfilled rest add up to what was needed.
pub proof fn lemma_match_queue_conserves(q: Seq<PartialOrder>, signer: Seq<char>, need: u64, price: u64)
    ensures
        ({
            let (rest, fills, left) = match_queue(q, signer, need, price);
            left <= need && total_amount(fills) + left == need
        }),
    decreases q.len(),
{
    if q.len() == 0 || need == 0 {
    } else {
        let head = q[0];
        let tail = q.drop_first();
        if head.signer@ == signer {
            lemma_match_queue_conserves(tail, signer, need, price);
        } else if head.remaining >= need {
            lemma_total_amount_single(taken_from(head, need, price));
        } else {
            let filled = PartialOrder { amount: head.remaining, remaining: 0, ..head };
            let (rest, fills, left) = match_queue(tail, signer, (need - head.remaining) as u64, price);
            lemma_match_queue_conserves(tail, signer, (need - head.remaining) as u64, price);
            lemma_total_amount_single(filled);
            lemma_total_amount_append(seq![filled], fills);
        }
    }
}

/// Matching a book side neither creates nor loses quantity.
pub proof fn lemma_match_levels_conserves(
    levels: Seq<LevelView>,
    incoming: Side,
    limit: u64,
    signer: Seq<char>,
    need: u64,
)
    ensures
        ({
            let (rest, fills, left) = match_levels(levels, incoming, limit, signer, need);
            left <= need && total_amount(fills) + left == need
        }),
    decreases levels.len(),
{
    if levels.len() == 0 || need == 0 || !crosses(incoming, limit, levels[0].price) {
    } else {
        let level = levels[0];
        let (queue, fills, left) = match_queue(level.orders, signer, need, level.price);
        let (rest, more, left2) = match_levels(levels.drop_first(), incoming, limit, signer, left);
        lemma_match_queue_conserves(level.orders, signer, need, level.price);
        lemma_match_levels_conserves(levels.drop_first(), incoming, limit, signer, left);
        lemma_total_amount_append(fills, more);
    }
}

proof fn lemma_match_queue_above(q: Seq<PartialOrder>, signer: Seq<char>, need: u64, price: u64, b: u64)
    requires
        all_above(q, b),
    ensures
        all_above(match_queue(q, signer, need, price).0, b),
    decreases q.len(),
{
    if q.len() == 0 || need == 0 {
    } else {
        let head = q[0];
        let tail = q.drop_first();
        if head.signer@ == signer {
            lemma_match_queue_above(tail, signer, need, price, b);
            let rest = match_queue(tail, signer, need, price).0;
            assert forall|k: int| 0 <= k < (seq![head] + rest).len() implies #[trigger] (seq![head] + rest)[k].ordinal > b by {
                if k > 0 {
                    assert((seq![head] + rest)[k] == rest[k - 1]);
                }
            }
        } else if head.remaining >= need {
            let kept = if head.remaining > need {
                seq![PartialOrder { remaining: (head.remaining - need) as u64, ..head }]
            } else {
                Seq::empty()
            };
            assert forall|k: int| 0 <= k < (kept + tail).len() implies #[trigger] (kept + tail)[k].ordinal > b by {
                if k >= kept.len() {
                    assert((kept + tail)[k] == q[k - kept.len() + 1]);
                }
            }
        } else {
            lemma_match_queue_above(tail, signer, (need - head.remaining) as u64, price, b);
        }
    }
}

/// Matching keeps a queue well-formed.
pub proof fn lemma_match_queue_ok(
    q: Seq<PartialOrder>,
    signer: Seq<char>,
    need: u64,
    price: u64,
    side: Side,
    max_ordinal: u64,
)
    requires
        queue_ok(q, price, side, max_ordinal),
    ensures
        queue_ok(match_queue(q, signer, need, price).0, price, side, max_ordinal),
    decreases q.len(),
{
    if q.len() == 0 || need == 0 {
    } else {
        let head = q[0];
        let tail = q.drop_first();
        assert(queue_ok(tail, price, side, max_ordinal)) by {
            assert forall|i: int, j: int| 0 <= i < j < tail.len() implies tail[i].ordinal < tail[j].ordinal by {
                assert(tail[i] == q[i + 1] && tail[j] == q[j + 1]);
            }
        }
        if head.signer@ == signer {
            lemma_match_queue_ok(tail, signer, need, price, side, max_ordinal);
            assert(all_above(tail, head.ordinal)) by {
                assert forall|k: int| 0 <= k < tail.len() implies #[trigger] tail[k].ordinal > head.ordinal by {
                    assert(tail[k] == q[k + 1]);
                }
            }
            lemma_match_queue_above(tail, signer, need, price, head.ordinal);
            let rest = match_queue(tail, signer, need, price).0;
            let r = seq![head] + rest;
            assert forall|i: int| 0 <= i < r.len() implies {
                &&& r[i].price == price
                &&& r[i].side == side
                &&& r[i].remaining > 0
                &&& r[i].ordinal <= max_ordinal
            } by {
                if i > 0 {
                    assert(r[i] == rest[i - 1]);
                }
            }
            assert forall|i: int, j: int| 0 <= i < j < r.len() implies r[i].ordinal < r[j].ordinal by {
                assert(r[j] == rest[j - 1]);
                if i > 0 {
                    assert(r[i] == rest[i - 1]);
                }
            }
        } else if head.remaining >= need {
            let kept = if head.remaining > need {
                seq![PartialOrder { remaining: (head.remaining - need) as u64, ..head }]
            } else {
                Seq::empty()
            };
            let r = kept + tail;
            assert forall|i: int| 0 <= i < r.len() implies {
                &&& r[i].price == price
                &&& r[i].side == side
                &&& r[i].remaining > 0
                &&& r[i].ordinal <= max_ordinal
            } by {
                if i >= kept.len() {
                    assert(r[i] == q[i - kept.len() + 1]);
                }
            }
            assert forall|i: int, j: int| 0 <= i < j < r.len() implies r[i].ordinal < r[j].ordinal by {
                assert(r[j] == q[j - kept.len() + 1]);
                if i >= kept.len() {
                    assert(r[i] == q[i - kept.len() + 1]);
                } else {
                    assert(r[i].ordinal == q[0].ordinal);
                }
            }
        } else {
            lemma_match_queue_ok(tail, signer, (need - head.remaining) as u64, price, side, max_ordinal);
        }
    }
}

proof fn lemma_match_levels_after(
    levels: Seq<LevelView>,
    incoming: Side,
    limit: u64,
    signer: Seq<char>,
    need: u64,
    side: Side,
    p: u64,
)
    requires
        all_after(levels, side, p),
    ensures
        all_after(match_levels(levels, incoming, limit, signer, need).0, side, p),
    decreases levels.len(),
{
    if levels.len() == 0 || need == 0 || !crosses(incoming, limit, levels[0].price) {
    } else {
        let level = levels[0];
        let (queue, fills, left) = match_queue(level.orders, signer, need, level.price);
        let tail = levels.drop_first();
        assert(all_after(tail, side, p)) by {
            assert forall|k: int| 0 <= k < tail.len() implies precedes(side, p, #[trigger] tail[k].price) by {
                assert(tail[k] == levels[k + 1]);
            }
        }
        lemma_match_levels_after(tail, incoming, limit, signer, left, side, p);
        let rest = match_levels(tail, incoming, limit, signer, left).0;
        let head = if queue.len() == 0 {
            Seq::empty()
        } else {
            seq![LevelView { price: level.price, orders: queue }]
        };
        let r = head + rest;
        assert forall|k: int| 0 <= k < r.len() implies precedes(side, p, #[trigger] r[k].price) by {
            if k >= head.len() {
                assert(r[k] == rest[k - head.len()]);
            }
        }
    }
}

/// Matching keeps a book side well-formed.
pub proof fn lemma_match_levels_ok(
    levels: Seq<LevelView>,
    incoming: Side,
    limit: u64,
    signer: Seq<char>,
    need: u64,
    side: Side,
    max_ordinal: u64,
)
    requires
        side_ok(levels, side, max_ordinal),
    ensures
        side_ok(match_levels(levels, incoming, limit, signer, need).0, side, max_ordinal),
    decreases levels.len(),
{
    if levels.len() == 0 || need == 0 || !crosses(incoming, limit, levels[0].price) {
    } else {
        let level = levels[0];
        let (queue, fills, left) = match_queue(level.orders, signer, need, level.price);
        let tail = levels.drop_first();
        assert(side_ok(tail, side, max_ordinal)) by {
            assert forall|i: int| 0 <= i < tail.len() implies {
                &&& #[trigger] tail[i].orders.len() > 0
                &&& queue_ok(tail[i].orders, tail[i].price, side, max_ordinal)
            } by {
                assert(tail[i] == levels[i + 1]);
            }
            assert forall|i: int, j: int| 0 <= i < j < tail.len() implies precedes(side, tail[i].price, tail[j].price) by {
                assert(tail[i] == levels[i + 1] && tail[j] == levels[j + 1]);
            }
        }
        assert(all_after(tail, side, level.price)) by {
            assert forall|k: int| 0 <= k < tail.len() implies precedes(side, level.price, #[trigger] tail[k].price) by {
                assert(tail[k] == levels[k + 1]);
            }
        }
        lemma_match_queue_ok(level.orders, signer, need, level.price, side, max_ordinal);
        lemma_match_levels_ok(tail, incoming, limit, signer, left, side, max_ordinal);
        lemma_match_levels_after(tail, incoming, limit, signer, left, side, level.price);
        let rest = match_levels(tail, incoming, limit, signer, left).0;
        let head = if queue.len() == 0 {
            Seq::empty()
        } else {
            seq![LevelView { price: level.price, orders: queue }]
        };
        let r = head + rest;
        assert forall|i: int| 0 <= i < r.len() implies {
            &&& #[trigger] r[i].orders.len() > 0
            &&& queue_ok(r[i].orders, r[i].price, side, max_ordinal)
        } by {
            if i >= head.len() {
                assert(r[i] == rest[i - head.len()]);
            }
        }
        assert forall|i: int, j: int| 0 <= i < j < r.len() implies precedes(side, r[i].price, r[j].price) by {
            assert(r[j] == rest[j - head.len()]);
            if i >= head.len() {
                assert(r[i] == rest[i - head.len()]);
            }
        }
    }
}

proof fn lemma_rest_order_after(levels: Seq<LevelView>, entry: PartialOrder, side: Side, p: u64)
    requires
        all_after(levels, side, p),
        precedes(side, p, entry.price),
    ensures
        all_after(rest_order(levels, entry, side), side, p),
    decreases levels.len(),
{
    let r = rest_order(levels, entry, side);
    if levels.len() == 0 {
    } else if levels[0].price == entry.price {
        assert forall|k: int| 0 <= k < r.len() implies precedes(side, p, #[trigger] r[k].price) by {
            if k > 0 {
                assert(r[k] == levels[k]);
            }
        }
    } else if precedes(side, entry.price, levels[0].price) {
        assert forall|k: int| 0 <= k < r.len() implies precedes(side, p, #[trigger] r[k].price) by {
            if k > 0 {
                assert(r[k] == levels[k - 1]);
            }
        }
    } else {
        let tail = levels.drop_first();
        assert(all_after(tail, side, p)) by {
            assert forall|k: int| 0 <= k < tail.len() implies precedes(side, p, #[trigger] tail[k].price) by {
                assert(tail[k] == levels[k + 1]);
            }
        }
        lemma_rest_order_after(tail, entry, side, p);
        let rest = rest_order(tail, entry, side);
        assert forall|k: int| 0 <= k < r.len() implies precedes(side, p, #[trigger] r[k].price) by {
            if k > 0 {
                assert(r[k] == rest[k - 1]);
            }
        }
    }
}

/// Queuing an entry newer than everything in a well-formed side keeps it
/// well-formed.
pub proof fn lemma_rest_order_ok(levels: Seq<LevelView>, entry: PartialOrder, side: Side, max_ordinal: u64)
    requires
        side_ok(levels, side, max_ordinal),
        max_ordinal < entry.ordinal,
        entry.side == side,
        entry.remaining > 0,
    ensures
        side_ok(rest_order(levels, entry, side), side, entry.ordinal),
    decreases levels.len(),
{
    let r = rest_order(levels, entry, side);
    let fresh = LevelView { price: entry.price, orders: seq![entry] };
    assert(queue_ok(fresh.orders, entry.price, side, entry.ordinal));
    if levels.len() == 0 {
    } else if levels[0].price == entry.price {
        let q = levels[0].orders.push(entry);
        assert(queue_ok(levels[0].orders, levels[0].price, side, max_ordinal));
        assert(queue_ok(q, entry.price, side, entry.ordinal)) by {
            assert forall|i: int| 0 <= i < q.len() implies {
                &&& q[i].price == entry.price
                &&& q[i].side == side
                &&& q[i].remaining > 0
                &&& q[i].ordinal <= entry.ordinal
            } by {
                if i < levels[0].orders.len() {
                    assert(q[i] == levels[0].orders[i]);
                }
            }
            assert forall|i: int, j: int| 0 <= i < j < q.len() implies q[i].ordinal < q[j].ordinal by {
                assert(q[i] == levels[0].orders[i]);
                if j < levels[0].orders.len() {
                    assert(q[j] == levels[0].orders[j]);
                }
            }
        }
        assert forall|i: int| 0 <= i < r.len() implies {
            &&& #[trigger] r[i].orders.len() > 0
            &&& queue_ok(r[i].orders, r[i].price, side, entry.ordinal)
        } by {
            if i > 0 {
                assert(r[i] == levels[i]);
                assert(queue_ok(levels[i].orders, levels[i].price, side, max_ordinal));
            }
        }
        assert forall|i: int, j: int| 0 <= i < j < r.len() implies precedes(side, r[i].price, r[j].price) by {
            assert(r[j] == levels[j]);
            if i > 0 {
                assert(r[i] == levels[i]);
            }
        }
    } else if precedes(side, entry.price, levels[0].price) {
        assert forall|i: int| 0 <= i < r.len() implies {
            &&& #[trigger] r[i].orders.len() > 0
            &&& queue_ok(r[i].orders, r[i].price, side, entry.ordinal)
        } by {
            if i > 0 {
                assert(r[i] == levels[i - 1]);
                assert(queue_ok(levels[i - 1].orders, levels[i - 1].price, side, max_ordinal));
            }
        }
        assert forall|i: int, j: int| 0 <= i < j < r.len() implies precedes(side, r[i].price, r[j].price) by {
            assert(r[j] == levels[j - 1]);
            if i > 0 {
                assert(r[i] == levels[i - 1]);
            } else {
                assert(precedes(side, levels[0].price, levels[j - 1].price) || j - 1 == 0);
            }
        }
    } else {
        let tail = levels.drop_first();
        assert(side_ok(tail, side, max_ordinal)) by {
            assert forall|i: int| 0 <= i < tail.len() implies {
                &&& #[trigger] tail[i].orders.len() > 0
                &&& queue_ok(tail[i].orders, tail[i].price, side, max_ordinal)
            } by {
                assert(tail[i] == levels[i + 1]);
            }
            assert forall|i: int, j: int| 0 <= i < j < tail.len() implies precedes(side, tail[i].price, tail[j].price) by {
                assert(tail[i] == levels[i + 1] && tail[j] == levels[j + 1]);
            }
        }
        assert(all_after(tail, side, levels[0].price)) by {
            assert forall|k: int| 0 <= k < tail.len() implies precedes(side, levels[0].price, #[trigger] tail[k].price) by {
                assert(tail[k] == levels[k + 1]);
            }
        }
        lemma_rest_order_ok(tail, entry, side, max_ordinal);
        lemma_rest_order_after(tail, entry, side, levels[0].price);
        let rest = rest_order(tail, entry, side);
        assert(queue_ok(levels[0].orders, levels[0].price, side, max_ordinal));
        assert forall|i: int| 0 <= i < r.len() implies {
            &&& #[trigger] r[i].orders.len() > 0
            &&& queue_ok(r[i].orders, r[i].price, side, entry.ordinal)
        } by {
            if i > 0 {
                assert(r[i] == rest[i - 1]);
            }
        }
        assert forall|i: int, j: int| 0 <= i < j < r.len() implies precedes(side, r[i].price, r[j].price) by {
            assert(r[j] == rest[j - 1]);
            if i > 0 {
                assert(r[i] == rest[i - 1]);
            }
        }
    }
}

/// A side that is well-formed under one bound on sequence numbers stays so
/// under any larger bound.
pub proof fn lemma_side_ok_mono(levels: Seq<LevelView>, side: Side, a: u64, b: u64)
    requires
        side_ok(levels, side, a),
        a <= b,
    ensures
        side_ok(levels, side, b),
{
    assert forall|i: int| 0 <= i < levels.len() implies {
        &&& #[trigger] levels[i].orders.len() > 0
        &&& queue_ok(levels[i].orders, levels[i].price, side, b)
    } by {
        assert(queue_ok(levels[i].orders, levels[i].price, side, a));
    }
}

/// Every entry of the side satisfies `pred` of its price and its signer.
pub open spec fn all_entries(levels: Seq<LevelView>, pred: spec_fn(u64, Seq<char>) -> bool) -> bool {
    forall|i: int, j: int|
        #![trigger levels[i].orders[j]]
        0 <= i < levels.len() && 0 <= j < levels[i].orders.len() ==> pred(
            levels[i].orders[j].price,
            levels[i].orders[j].signer@,
        )
}

/// No bid crosses an ask of another signer: a bid at or above an ask's
/// price belongs to the ask's own signer.
pub open spec fn uncrossed_between_signers(book: BookView) -> bool {
    all_entries(
        book.bids,
        |bid_price: u64, bid_signer: Seq<char>|
            all_entries(
                book.asks,
                |ask_price: u64, ask_signer: Seq<char>| bid_price >= ask_price ==> bid_signer == ask_signer,
            ),
    )
}

/// How many entries of the queue carry sequence number `n`.
pub open spec fn count_in_queue(q: Seq<PartialOrder>, n: u64) -> nat
    decreases q.len(),
{
    if q.len() == 0 {
        0
    } else {
        (if q[0].ordinal == n { 1nat } else { 0nat }) + count_in_queue(q.drop_first(), n)
    }
}

/// How many entries of the side carry sequence number `n`.
pub open spec fn count_in_side(levels: Seq<LevelView>, n: u64) -> nat
    decreases levels.len(),
{
    if levels.len() == 0 {
        0
    } else {
        count_in_queue(levels[0].orders, n) + count_in_side(levels.drop_first(), n)
    }
}

/// No sequence number occurs twice anywhere in the book.
pub open spec fn distinct_ordinals(book: BookView) -> bool {
    forall|n: u64| #[trigger] count_in_side(book.bids, n) + count_in_side(book.asks, n) <= 1
}

/// The matching engine: the last sequence number handed out, both book
/// sides and the receipts of every processed order.
pub struct MatchingEngine {
    /// The last sequence number.
    pub ordinal: u64,
    /// The "Bid" or "Buy" side of the book, highest price first.
    pub bids: Vec<PriceLevel>,
    /// The "Ask" or "Sell" side of the book, lowest price first.
    pub asks: Vec<PriceLevel>,
    /// Previous matches for record keeping.
    pub history: Vec<Receipt>,
}

impl MatchingEngine {
    /// Both sides of the book.
    pub open spec fn book(&self) -> BookView {
        BookView { bids: levels_view(self.bids@), asks: levels_view(self.asks@) }
    }

    /// The book holds buy orders on the bid side and sell orders on the ask
    /// side, each side well-formed, with no sequence number beyond the last
    /// one handed out and none twice, and no bid crosses an ask of another
    /// signer.
    pub open spec fn wf(&self) -> bool {
        &&& side_ok(levels_view(self.bids@), Side::Buy, self.ordinal)
        &&& side_ok(levels_view(self.asks@), Side::Sell, self.ordinal)
        &&& distinct_ordinals(self.book())
        &&& uncrossed_between_signers(self.book())
    }
}

} // verus!

verus! {

fn crosses_exec(incoming: Side, limit: u64, level_price: u64) -> (r: bool)
    ensures
        r == crosses(incoming, limit, level_price),
{
    match incoming {
        Side::Buy => level_price <= limit,
        Side::Sell => level_price >= limit,
    }
}

fn precedes_exec(side: Side, a: u64, b: u64) -> (r: bool)
    ensures
        r == precedes(side, a, b),
{
    match side {
        Side::Buy => a > b,
        Side::Sell => a < b,
    }
}

/// The total quantity of a sequence of fills.
fn sum_amounts(fills: &Vec<PartialOrder>) -> (total: u64)
    requires
        total_amount(fills@) <= u64::MAX,
    ensures
        total == total_amount(fills@),
{
    let mut total: u64 = 0;
    let mut i: usize = 0;
    while i < fills.len()
        invariant
            i <= fills.len(),
            total == total_amount(fills@.take(i as int)),
            total_amount(fills@) <= u64::MAX,
        decreases fills.len() - i,
    {
        proof {
            lemma_total_amount_append(fills@.take(i as int + 1), fills@.skip(i as int + 1));
            assert(fills@.take(i as int + 1) + fills@.skip(i as int + 1) =~= fills@);
            assert(fills@.take(i as int + 1).drop_last() =~= fills@.take(i as int));
            lemma_total_nonneg(fills@.skip(i as int + 1));
        }
        total = total + fills[i].amount;
        i += 1;
    }
    assert(fills@.take(i as int) =~= fills@);
    total
}

proof fn lemma_total_nonneg(s: Seq<PartialOrder>)
    ensures
        total_amount(s) >= 0,
    decreases s.len(),
{
    if s.len() > 0 {
        lemma_total_nonneg(s.drop_last());
    }
}

impl Clone for PriceLevel {
    fn clone(&self) -> (r: Self)
        ensures
            r@ == self@,
    {
        let mut orders: Vec<PartialOrder> = Vec::new();
        let mut i: usize = 0;
        while i < self.orders.len()
            invariant
                i <= self.orders@.len(),
                orders@ == self.orders@.take(i as int),
            decreases self.orders@.len() - i,
        {
            orders.push(self.orders[i].clone());
            i += 1;
            assert(orders@ =~= self.orders@.take(i as int));
        }
        assert(orders@ =~= self.orders@);
        PriceLevel { price: self.price, orders }
    }
}

/// A copy of a book side.
pub fn copy_levels(levels: &Vec<PriceLevel>) -> (r: Vec<PriceLevel>)
    ensures
        levels_view(r@) == levels_view(levels@),
{
    let mut r: Vec<PriceLevel> = Vec::new();
    let mut i: usize = 0;
    while i < levels.len()
        invariant
            i <= levels@.len(),
            levels_view(r@) == levels_view(levels@).take(i as int),
        decreases levels@.len() - i,
    {
        let ghost before = levels_view(r@);
        let level = levels[i].clone();
        assert(level@ == levels@[i as int]@);
        r.push(level);
        assert(levels_view(r@) =~= before.push(level@));
        i += 1;
        assert(levels_view(r@) =~= levels_view(levels@).take(i as int));
    }
    assert(levels_view(levels@).take(i as int) =~= levels_view(levels@));
    r
}

impl Default for MatchingEngine {
    /// An engine with an ordinal of 0 and empty books.
    fn default() -> (r: Self)
        ensures
            r.wf(),
            r.ordinal == 0,
            r.bids@.len() == 0,
            r.asks@.len() == 0,
            r.history@.len() == 0,
    {
        MatchingEngine::new()
    }
}

impl MatchingEngine {
    /// The fills `order` would get if it were processed now, leaving the
    /// engine as it is.
    pub fn preview_fills(&self, order: &Order) -> (r: Vec<PartialOrder>)
        ensures
            r@ == book_after(self.book(), *order, (self.ordinal + 1) as u64).1,
    {
        let probe = PartialOrder {
            price: order.price,
            amount: order.amount,
            remaining: order.amount,
            side: order.side,
            signer: order.signer.clone(),
            ordinal: 0,
        };
        let mut side = match order.side {
            Side::Buy => copy_levels(&self.asks),
            Side::Sell => copy_levels(&self.bids),
        };
        match Self::match_order(&probe, &mut side, 0) {
            Ok(receipt) => receipt.matches,
            Err(_) => Vec::new(),
        }
    }

    /// Creates a new engine with an ordinal of 0 and empty books.
    pub fn new() -> (r: Self)
        ensures
            r.wf(),
            r.ordinal == 0,
            r.bids@.len() == 0,
            r.asks@.len() == 0,
            r.history@.len() == 0,
    {
        MatchingEngine { ordinal: 0, bids: Vec::new(), asks: Vec::new(), history: Vec::new() }
    }

    /// Matches `need` units of an order from `signer` against one queue at
    /// `price`, oldest entry first; returns the queue left behind, the fills
    /// and what is still unfilled.
    fn match_queue(orders: Vec<PartialOrder>, signer: &String, need: u64, price: u64)
        -> (r: (Vec<PartialOrder>, Vec<PartialOrder>, u64))
        ensures
            (r.0@, r.1@, r.2) == match_queue(orders@, signer@, need, price),
    {
        let ghost q = orders@;
        let mut orders = orders;
        let mut kept: Vec<PartialOrder> = Vec::new();
        let mut fills: Vec<PartialOrder> = Vec::new();
        let mut left = need;
        let mut i: usize = 0;
        proof {
            let r = match_queue(q, signer@, need, price);
            assert(q.skip(0) =~= q);
            assert(kept@ + r.0 =~= r.0);
            assert(fills@ + r.1 =~= r.1);
        }
        while i < orders.len() && left > 0
            invariant
                orders@ == q,
                i <= q.len(),
                match_queue(q, signer@, need, price) == ({
                    let r = match_queue(q.skip(i as int), signer@, left, price);
                    (kept@ + r.0, fills@ + r.1, r.2)
                }),
            decreases q.len() - i,
        {
            let ghost s = q.skip(i as int);
            let ghost old_kept = kept@;
            let ghost old_fills = fills@;
            let ghost old_left = left;
            assert(s.drop_first() =~= q.skip(i as int + 1));
            assert(s[0] == q[i as int]);
            let mut entry = orders[i].clone();
            if entry.signer == *signer {
                kept.push(entry);
                proof {
                    let r = match_queue(q.skip(i as int + 1), signer@, left, price);
                    assert(kept@ + r.0 =~= old_kept + (seq![q[i as int]] + r.0));
                }
            } else if entry.remaining >= left {
                let filled = PartialOrder::take_from(&mut entry, left, price);
                fills.push(filled);
                if entry.remaining > 0 {
                    kept.push(entry);
                }
                left = 0;
                proof {
                    let head = q[i as int];
                    let kept_part = if head.remaining > old_left {
                        seq![PartialOrder { remaining: (head.remaining - old_left) as u64, ..head }]
                    } else {
                        Seq::empty()
                    };
                    assert(kept@ + q.skip(i as int + 1) =~= old_kept + (kept_part + q.skip(i as int + 1)));
                    assert(fills@ + Seq::<PartialOrder>::empty() =~= old_fills + seq![taken_from(head, old_left, price)]);
                }
            } else {
                let fill_qty = entry.remaining;
                left = left - fill_qty;
                entry.amount = fill_qty;
                entry.remaining = 0;
                fills.push(entry);
                proof {
                    let r = match_queue(q.skip(i as int + 1), signer@, left, price);
                    assert(fills@ + r.1 =~= old_fills + (seq![fills@.last()] + r.1));
                }
            }
            i += 1;
        }
        let mut tail = orders.split_off(i);
        assert(tail@ =~= q.skip(i as int));
        kept.append(&mut tail);
        assert(fills@ + Seq::<PartialOrder>::empty() =~= fills@);
        (kept, fills, left)
    }

    /// Matches an order against the opposite book side `book`, best level
    /// first, dropping levels it empties.
    ///
    /// `ordinal` is the sequence number the receipt is issued under.
    fn match_order(order: &PartialOrder, book: &mut Vec<PriceLevel>, ordinal: u64) -> (r: Result<Receipt, ApplicationError>)
        ensures
            ({
                let (levels, fills, left) = match_levels(
                    levels_view(old(book)@),
                    order.side,
                    order.price,
                    order.signer@,
                    order.amount,
                );
                &&& levels_view(final(book)@) == levels
                &&& r matches Ok(receipt) && receipt.ordinal == ordinal && receipt.matches@ == fills
            }),
    {
        let ghost start = levels_view(book@);
        let mut levels: Vec<PriceLevel> = Vec::new();
        std::mem::swap(&mut levels, book);
        let mut remaining = order.amount;
        let mut matches: Vec<PartialOrder> = Vec::new();
        assert(levels_view(book@) =~= Seq::<LevelView>::empty());
        while levels.len() > 0 && remaining > 0 && crosses_exec(order.side, order.price, levels[0].price)
            invariant
                match_levels(start, order.side, order.price, order.signer@, order.amount) == ({
                    let r = match_levels(levels_view(levels@), order.side, order.price, order.signer@, remaining);
                    (levels_view(book@) + r.0, matches@ + r.1, r.2)
                }),
            decreases levels@.len(),
        {
            let ghost lv = levels_view(levels@);
            let ghost old_book = levels_view(book@);
            let ghost old_matches = matches@;
            let level = levels.remove(0);
            assert(levels_view(levels@) =~= lv.drop_first());
            assert(level@ == lv[0]);
            let (queue, mut fills, left) = Self::match_queue(level.orders, &order.signer, remaining, level.price);
            let ghost fills_seq = fills@;
            if queue.len() > 0 {
                book.push(PriceLevel { price: level.price, orders: queue });
            }
            matches.append(&mut fills);
            remaining = left;
            proof {
                let r = match_levels(levels_view(levels@), order.side, order.price, order.signer@, remaining);
                let head = if queue@.len() == 0 {
                    Seq::empty()
                } else {
                    seq![LevelView { price: level.price, orders: queue@ }]
                };
                assert(levels_view(book@) =~= old_book + head);
                assert(levels_view(book@) + r.0 =~= old_book + (head + r.0));
                assert(matches@ + r.1 =~= old_matches + (fills_seq + r.1));
            }
        }
        let ghost before = levels_view(book@);
        let ghost rest = levels_view(levels@);
        book.append(&mut levels);
        assert(levels_view(book@) =~= before + rest);
        assert(matches@ + Seq::<PartialOrder>::empty() =~= matches@);
        Ok(Receipt { ordinal, matches })
    }

    /// Queues `entry` at its price on `book`, a side holding orders of
    /// `side`: at the back of the level at that price, or in a new level in
    /// price order.
    fn rest_order(book: &mut Vec<PriceLevel>, entry: PartialOrder, side: Side)
        ensures
            levels_view(final(book)@) == rest_order(levels_view(old(book)@), entry, side),
    {
        let ghost v = levels_view(book@);
        let mut i: usize = 0;
        assert(v.skip(0) =~= v);
        assert(v.take(0) + rest_order(v, entry, side) =~= rest_order(v, entry, side));
        while i < book.len() && book[i].price != entry.price && !precedes_exec(side, entry.price, book[i].price)
            invariant
                levels_view(book@) == v,
                i <= v.len(),
                rest_order(v, entry, side) == v.take(i as int) + rest_order(v.skip(i as int), entry, side),
            decreases v.len() - i,
        {
            assert(v.skip(i as int).drop_first() =~= v.skip(i as int + 1));
            assert(v.take(i as int + 1) =~= v.take(i as int) + seq![v[i as int]]);
            assert(v.take(i as int) + (seq![v[i as int]] + rest_order(v.skip(i as int + 1), entry, side))
                =~= v.take(i as int + 1) + rest_order(v.skip(i as int + 1), entry, side));
            i += 1;
        }
        if i < book.len() && book[i].price == entry.price {
            let mut level = book.remove(i);
            level.orders.push(entry);
            book.insert(i, level);
            assert(v.skip(i as int).drop_first() =~= v.skip(i as int + 1));
            assert(levels_view(book@) =~= v.take(i as int) + (seq![level@] + v.skip(i as int + 1)));
        } else {
            let entry_price = entry.price;
            let mut orders: Vec<PartialOrder> = Vec::new();
            orders.push(entry);
            let level = PriceLevel { price: entry_price, orders };
            book.insert(i, level);
            assert(levels_view(book@) =~= v.take(i as int) + (seq![level@] + v.skip(i as int)));
            proof {
                if i == v.len() {
                    assert(v.skip(i as int) =~= Seq::<LevelView>::empty());
                }
            }
        }
    }
}


impl MatchingEngine {
    /// Processes an [`Order`] and returns a [`Receipt`].
    ///
    /// The order gets the next sequence number, is matched against the
    /// opposite side of the book (best price first, oldest order first at a
    /// price, never against its own signer's orders), and whatever is left
    /// of it is added to its own side for future matching. The receipt is
    /// also kept in the history.
    pub fn process(&mut self, order: Order) -> (r: Result<Receipt, ApplicationError>)
        requires
            old(self).wf(),
            old(self).ordinal < u64::MAX,
        ensures
            final(self).wf(),
            final(self).ordinal == old(self).ordinal + 1,
            ({
                let (book, fills) = book_after(old(self).book(), order, final(self).ordinal);
                &&& final(self).book() == book
                &&& r matches Ok(receipt) && {
                    &&& receipt.ordinal == final(self).ordinal
                    &&& receipt.matches@ == fills
                    &&& receipts_view(final(self).history@) == receipts_view(old(self).history@).push(receipt@)
                }
            }),
    {
        let ghost start = self.book();
        self.ordinal = self.ordinal + 1;
        let ordinal = self.ordinal;
        proof {
            lemma_side_ok_mono(start.bids, Side::Buy, (ordinal - 1) as u64, ordinal);
            lemma_side_ok_mono(start.asks, Side::Sell, (ordinal - 1) as u64, ordinal);
        }
        let ghost incoming = order;
        let full_amount = order.amount;
        let mut partial = order.into_partial_order(ordinal, full_amount);
        let receipt = match partial.side {
            Side::Buy => {
                let receipt = match Self::match_order(&partial, &mut self.asks, ordinal) {
                    Ok(receipt) => receipt,
                    Err(e) => { return Err(e); },
                };
                proof {
                    lemma_match_levels_conserves(start.asks, Side::Buy, incoming.price, incoming.signer@, full_amount);
                    lemma_match_levels_ok(start.asks, Side::Buy, incoming.price, incoming.signer@, full_amount, Side::Sell, ordinal);
                }
                let matched_amount = sum_amounts(&receipt.matches);
                if matched_amount < full_amount {
                    partial.amount = full_amount - matched_amount;
                    partial.remaining = full_amount - matched_amount;
                    proof {
                        assert(partial == resting(incoming, ordinal, partial.amount));
                        lemma_rest_order_ok(start.bids, partial, Side::Buy, (ordinal - 1) as u64);
                    }
                    Self::rest_order(&mut self.bids, partial, Side::Buy);
                }
                receipt
            },
            Side::Sell => {
                let receipt = match Self::match_order(&partial, &mut self.bids, ordinal) {
                    Ok(receipt) => receipt,
                    Err(e) => { return Err(e); },
                };
                proof {
                    lemma_match_levels_conserves(start.bids, Side::Sell, incoming.price, incoming.signer@, full_amount);
                    lemma_match_levels_ok(start.bids, Side::Sell, incoming.price, incoming.signer@, full_amount, Side::Buy, ordinal);
                }
                let matched_amount = sum_amounts(&receipt.matches);
                if matched_amount < full_amount {
                    partial.amount = full_amount - matched_amount;
                    partial.remaining = full_amount - matched_amount;
                    proof {
                        assert(partial == resting(incoming, ordinal, partial.amount));
                        lemma_rest_order_ok(start.asks, partial, Side::Sell, (ordinal - 1) as u64);
                    }
                    Self::rest_order(&mut self.asks, partial, Side::Sell);
                }
                receipt
            },
        };
        let logged = receipt.clone();
        self.history.push(logged);
        assert(receipts_view(self.history@) =~= receipts_view(old(self).history@).push(receipt@));
        proof {
            crate::matching_laws::law_process_keeps_book_consistent(start, incoming, (ordinal - 1) as u64, ordinal);
            assert(self.book() == book_after(start, incoming, ordinal).0);
        }
        Ok(receipt)
    }
}

} // verus!
