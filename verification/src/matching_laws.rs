//! What every processed order satisfies: quantity is conserved, an order
//! never trades with its own signer, fills respect the limit price, and
//! fills come in price-time priority.
use vstd::prelude::*;
use crate::matching::{
    BookView, LevelView, all_above, all_entries, book_after, count_in_queue, count_in_side, crosses,
    distinct_ordinals, lemma_match_levels_conserves, match_levels, match_queue, precedes, queue_ok,
    rest_order, resting, side_ok, total_amount, uncrossed_between_signers,
};
use crate::types::{Order, PartialOrder, Side, taken_from};

verus! {

/// What holds of every fill taken from a book side of orders of `side`: it
/// comes from that side, is of another signer than `signer`, has a positive
/// quantity and a sequence number no larger than `max_ordinal`.
pub open spec fn fills_ok(fills: Seq<PartialOrder>, side: Side, signer: Seq<char>, max_ordinal: u64) -> bool {
    forall|k: int|
        #![trigger fills[k]]
        0 <= k < fills.len() ==> {
            &&& fills[k].side == side
            &&& fills[k].signer@ != signer
            &&& fills[k].amount > 0
            &&& fills[k].ordinal <= max_ordinal
        }
}

/// Fills in price-time priority for a book side of orders of `side`: better
/// prices first, and at one price older orders first.
pub open spec fn in_priority_order(fills: Seq<PartialOrder>, side: Side) -> bool {
    forall|i: int, j: int|
        #![trigger fills[i], fills[j]]
        0 <= i < j < fills.len() ==> {
            ||| precedes(side, fills[i].price, fills[j].price)
            ||| (fills[i].price == fills[j].price && fills[i].ordinal < fills[j].ordinal)
        }
}

/// Every fill is at `price`.
pub open spec fn all_at(fills: Seq<PartialOrder>, price: u64) -> bool {
    forall|k: int| 0 <= k < fills.len() ==> #[trigger] fills[k].price == price
}

/// Every fill is at a price strictly after `p` on the side of `side`.
pub open spec fn all_priced_after(fills: Seq<PartialOrder>, side: Side, p: u64) -> bool {
    forall|k: int| 0 <= k < fills.len() ==> precedes(side, p, #[trigger] fills[k].price)
}

proof fn lemma_queue_tail(q: Seq<PartialOrder>, price: u64, side: Side, max_ordinal: u64)
    requires
        q.len() > 0,
        queue_ok(q, price, side, max_ordinal),
    ensures
        queue_ok(q.drop_first(), price, side, max_ordinal),
        all_above(q.drop_first(), q[0].ordinal),
{
    let tail = q.drop_first();
    assert forall|i: int, j: int| 0 <= i < j < tail.len() implies tail[i].ordinal < tail[j].ordinal by {
        assert(tail[i] == q[i + 1] && tail[j] == q[j + 1]);
    }
    assert forall|k: int| 0 <= k < tail.len() implies #[trigger] tail[k].ordinal > q[0].ordinal by {
        assert(tail[k] == q[k + 1]);
    }
}

proof fn lemma_concat_index(a: Seq<PartialOrder>, b: Seq<PartialOrder>, k: int)
    requires
        0 <= k < a.len() + b.len(),
    ensures
        k < a.len() ==> (a + b)[k] == a[k],
        k >= a.len() ==> (a + b)[k] == b[k - a.len()],
{
}

/// The fills of one queue: all at the level's price, of the queue's side,
/// of other signers, positive, in sequence order, and newer than any bound
/// the queue is newer than.
proof fn lemma_queue_fills(
    q: Seq<PartialOrder>,
    signer: Seq<char>,
    need: u64,
    price: u64,
    side: Side,
    max_ordinal: u64,
    b: u64,
    above: bool,
)
    requires
        queue_ok(q, price, side, max_ordinal),
        above ==> all_above(q, b),
    ensures
        ({
            let fills = match_queue(q, signer, need, price).1;
            &&& fills_ok(fills, side, signer, max_ordinal)
            &&& all_at(fills, price)
            &&& above ==> all_above(fills, b)
            &&& forall|i: int, j: int| #![trigger fills[i], fills[j]] 0 <= i < j < fills.len() ==> fills[i].ordinal < fills[j].ordinal
        }),
    decreases q.len(),
{
    if q.len() == 0 || need == 0 {
    } else {
        let head = q[0];
        let tail = q.drop_first();
        lemma_queue_tail(q, price, side, max_ordinal);
        assert(above ==> all_above(tail, b)) by {
            assert forall|k: int| above && 0 <= k < tail.len() implies #[trigger] tail[k].ordinal > b by {
                assert(tail[k] == q[k + 1]);
            }
        }
        assert(q[0] == head);
        if head.signer@ == signer {
            lemma_queue_fills(tail, signer, need, price, side, max_ordinal, b, above);
        } else if head.remaining >= need {
            let f = taken_from(head, need, price);
            assert(seq![f][0] == f);
        } else {
            let filled = PartialOrder { amount: head.remaining, remaining: 0, ..head };
            let left = (need - head.remaining) as u64;
            let fills = match_queue(tail, signer, left, price).1;
            lemma_queue_fills(tail, signer, left, price, side, max_ordinal, b, above);
            lemma_queue_fills(tail, signer, left, price, side, max_ordinal, head.ordinal, true);
            let all = seq![filled] + fills;
            assert forall|k: int| 0 <= k < all.len() implies {
                &&& all[k].side == side
                &&& all[k].signer@ != signer
                &&& all[k].amount > 0
                &&& all[k].ordinal <= max_ordinal
                &&& all[k].price == price
                &&& (above ==> all[k].ordinal > b)
            } by {
                lemma_concat_index(seq![filled], fills, k);
            }
            assert forall|i: int, j: int| 0 <= i < j < all.len() implies all[i].ordinal < all[j].ordinal by {
                lemma_concat_index(seq![filled], fills, i);
                lemma_concat_index(seq![filled], fills, j);
            }
        }
    }
}

proof fn lemma_side_tail(levels: Seq<LevelView>, side: Side, max_ordinal: u64)
    requires
        levels.len() > 0,
        side_ok(levels, side, max_ordinal),
    ensures
        side_ok(levels.drop_first(), side, max_ordinal),
        forall|k: int| 0 <= k < levels.len() - 1 ==> precedes(side, levels[0].price, #[trigger] levels.drop_first()[k].price),
{
    let tail = levels.drop_first();
    assert forall|i: int| 0 <= i < tail.len() implies {
        &&& #[trigger] tail[i].orders.len() > 0
        &&& queue_ok(tail[i].orders, tail[i].price, side, max_ordinal)
    } by {
        assert(tail[i] == levels[i + 1]);
    }
    assert forall|i: int, j: int| 0 <= i < j < tail.len() implies precedes(side, tail[i].price, tail[j].price) by {
        assert(tail[i] == levels[i + 1] && tail[j] == levels[j + 1]);
    }
    assert forall|k: int| 0 <= k < levels.len() - 1 implies precedes(side, levels[0].price, #[trigger] tail[k].price) by {
        assert(tail[k] == levels[k + 1]);
    }
}

/// The fills of a well-formed book side `levels` of orders of `side`: what
/// `fills_ok` states, in price-time priority, crossing the limit, and at
/// prices no better than `p` when every level lies after `p`.
proof fn lemma_levels_fills(
    levels: Seq<LevelView>,
    incoming: Side,
    limit: u64,
    signer: Seq<char>,
    need: u64,
    side: Side,
    max_ordinal: u64,
    p: u64,
    bounded: bool,
)
    requires
        side_ok(levels, side, max_ordinal),
        bounded ==> forall|k: int| 0 <= k < levels.len() ==> precedes(side, p, #[trigger] levels[k].price),
    ensures
        ({
            let fills = match_levels(levels, incoming, limit, signer, need).1;
            &&& fills_ok(fills, side, signer, max_ordinal)
            &&& in_priority_order(fills, side)
            &&& forall|k: int| 0 <= k < fills.len() ==> crosses(incoming, limit, #[trigger] fills[k].price)
            &&& bounded ==> all_priced_after(fills, side, p)
        }),
    decreases levels.len(),
{
    if levels.len() == 0 || need == 0 || !crosses(incoming, limit, levels[0].price) {
    } else {
        let level = levels[0];
        let tail = levels.drop_first();
        let (queue, fills, left) = match_queue(level.orders, signer, need, level.price);
        let more = match_levels(tail, incoming, limit, signer, left).1;
        assert(queue_ok(level.orders, level.price, side, max_ordinal));
        lemma_queue_fills(level.orders, signer, need, level.price, side, max_ordinal, 0, false);
        lemma_side_tail(levels, side, max_ordinal);
        lemma_levels_fills(tail, incoming, limit, signer, left, side, max_ordinal, level.price, true);
        lemma_levels_fills(tail, incoming, limit, signer, left, side, max_ordinal, p, bounded);
        let all = fills + more;
        assert forall|k: int| 0 <= k < all.len() implies {
            &&& all[k].side == side
            &&& all[k].signer@ != signer
            &&& all[k].amount > 0
            &&& all[k].ordinal <= max_ordinal
            &&& crosses(incoming, limit, all[k].price)
            &&& (bounded ==> precedes(side, p, all[k].price))
            &&& (k >= fills.len() ==> precedes(side, level.price, all[k].price))
            &&& (k < fills.len() ==> all[k].price == level.price)
        } by {
            lemma_concat_index(fills, more, k);
            if k < fills.len() {
                assert(fills[k].price == level.price);
            }
        }
        assert forall|i: int, j: int| 0 <= i < j < all.len() implies {
            ||| precedes(side, all[i].price, all[j].price)
            ||| (all[i].price == all[j].price && all[i].ordinal < all[j].ordinal)
        } by {
            lemma_concat_index(fills, more, i);
            lemma_concat_index(fills, more, j);
            if j < fills.len() {
                assert(fills[i].price == level.price && fills[j].price == level.price);
            } else if i < fills.len() {
                assert(fills[i].price == level.price);
                assert(precedes(side, level.price, more[j - fills.len()].price));
            }
        }
    }
}

/// Processing an order neither creates nor loses quantity: its fills add up
/// to at most its amount, and exactly the unfilled rest joins the order's
/// own side, under its sequence number.
pub proof fn law_process_conserves_quantity(book: BookView, order: Order, ordinal: u64)
    ensures
        ({
            let (after, fills) = book_after(book, order, ordinal);
            let left = (order.amount - total_amount(fills)) as u64;
            &&& 0 <= total_amount(fills) <= order.amount
            &&& order.side == Side::Buy ==> after.bids == (if left > 0 {
                rest_order(book.bids, resting(order, ordinal, left), Side::Buy)
            } else {
                book.bids
            })
            &&& order.side == Side::Sell ==> after.asks == (if left > 0 {
                rest_order(book.asks, resting(order, ordinal, left), Side::Sell)
            } else {
                book.asks
            })
        }),
{
    match order.side {
        Side::Buy => lemma_match_levels_conserves(book.asks, Side::Buy, order.price, order.signer@, order.amount),
        Side::Sell => lemma_match_levels_conserves(book.bids, Side::Sell, order.price, order.signer@, order.amount),
    }
}

/// On a well-formed book, every fill of a processed order comes from the
/// opposite side, belongs to another signer (no self-trade), has a positive
/// quantity, predates the order, and is at a price that crosses the order's
/// limit; and the fills come best price first, oldest first at one price.
pub proof fn law_process_fills(book: BookView, order: Order, max_ordinal: u64, ordinal: u64)
    requires
        side_ok(book.bids, Side::Buy, max_ordinal),
        side_ok(book.asks, Side::Sell, max_ordinal),
        max_ordinal < ordinal,
    ensures
        ({
            let fills = book_after(book, order, ordinal).1;
            &&& fills_ok(fills, order.side.opposite(), order.signer@, max_ordinal)
            &&& in_priority_order(fills, order.side.opposite())
            &&& forall|k: int| 0 <= k < fills.len() ==> crosses(order.side, order.price, #[trigger] fills[k].price)
        }),
{
    match order.side {
        Side::Buy => lemma_levels_fills(book.asks, Side::Buy, order.price, order.signer@, order.amount, Side::Sell, max_ordinal, 0, false),
        Side::Sell => lemma_levels_fills(book.bids, Side::Sell, order.price, order.signer@, order.amount, Side::Buy, max_ordinal, 0, false),
    }
}


proof fn lemma_count_append(a: Seq<PartialOrder>, b: Seq<PartialOrder>, n: u64)
    ensures
        count_in_queue(a + b, n) == count_in_queue(a, n) + count_in_queue(b, n),
    decreases a.len(),
{
    if a.len() == 0 {
        assert(a + b =~= b);
    } else {
        assert((a + b)[0] == a[0]);
        assert((a + b).drop_first() =~= a.drop_first() + b);
        lemma_count_append(a.drop_first(), b, n);
    }
}

proof fn lemma_count_single(x: PartialOrder, n: u64)
    ensures
        count_in_queue(seq![x], n) == (if x.ordinal == n { 1nat } else { 0nat }),
{
    assert(seq![x].drop_first() =~= Seq::<PartialOrder>::empty());
    assert(count_in_queue(Seq::<PartialOrder>::empty(), n) == 0);
}

proof fn lemma_side_count_cons(l: LevelView, rest: Seq<LevelView>, n: u64)
    ensures
        count_in_side(seq![l] + rest, n) == count_in_queue(l.orders, n) + count_in_side(rest, n),
{
    assert((seq![l] + rest)[0] == l);
    assert((seq![l] + rest).drop_first() =~= rest);
}

/// Matching a queue never adds an entry with a given sequence number.
proof fn lemma_queue_count(q: Seq<PartialOrder>, signer: Seq<char>, need: u64, price: u64, n: u64)
    ensures
        count_in_queue(match_queue(q, signer, need, price).0, n) <= count_in_queue(q, n),
    decreases q.len(),
{
    if q.len() == 0 || need == 0 {
    } else {
        let head = q[0];
        let tail = q.drop_first();
        if head.signer@ == signer {
            lemma_queue_count(tail, signer, need, price, n);
            let rest = match_queue(tail, signer, need, price).0;
            lemma_count_append(seq![head], rest, n);
            lemma_count_single(head, n);
        } else if head.remaining >= need {
            let kept = if head.remaining > need {
                seq![PartialOrder { remaining: (head.remaining - need) as u64, ..head }]
            } else {
                Seq::empty()
            };
            lemma_count_append(kept, tail, n);
            if head.remaining > need {
                lemma_count_single(PartialOrder { remaining: (head.remaining - need) as u64, ..head }, n);
            }
        } else {
            lemma_queue_count(tail, signer, (need - head.remaining) as u64, price, n);
        }
    }
}

/// Matching a side never adds an entry with a given sequence number.
proof fn lemma_levels_count(
    levels: Seq<LevelView>,
    incoming: Side,
    limit: u64,
    signer: Seq<char>,
    need: u64,
    n: u64,
)
    ensures
        count_in_side(match_levels(levels, incoming, limit, signer, need).0, n) <= count_in_side(levels, n),
    decreases levels.len(),
{
    if levels.len() == 0 || need == 0 || !crosses(incoming, limit, levels[0].price) {
    } else {
        let level = levels[0];
        let (queue, fills, left) = match_queue(level.orders, signer, need, level.price);
        let rest = match_levels(levels.drop_first(), incoming, limit, signer, left).0;
        lemma_queue_count(level.orders, signer, need, level.price, n);
        lemma_levels_count(levels.drop_first(), incoming, limit, signer, left, n);
        if queue.len() > 0 {
            lemma_side_count_cons(LevelView { price: level.price, orders: queue }, rest, n);
        } else {
            assert(Seq::<LevelView>::empty() + rest =~= rest);
        }
    }
}

/// Queuing an entry adds exactly one entry with its sequence number.
proof fn lemma_rest_count(levels: Seq<LevelView>, entry: PartialOrder, side: Side, n: u64)
    ensures
        count_in_side(rest_order(levels, entry, side), n) == count_in_side(levels, n) + (if entry.ordinal
            == n {
            1nat
        } else {
            0nat
        }),
    decreases levels.len(),
{
    let fresh = LevelView { price: entry.price, orders: seq![entry] };
    lemma_count_single(entry, n);
    if levels.len() == 0 {
        assert(seq![fresh].drop_first() =~= Seq::<LevelView>::empty());
        assert(count_in_side(Seq::<LevelView>::empty(), n) == 0);
    } else if levels[0].price == entry.price {
        let grown = LevelView { price: entry.price, orders: levels[0].orders.push(entry) };
        lemma_side_count_cons(grown, levels.drop_first(), n);
        assert(levels[0].orders.push(entry) =~= levels[0].orders + seq![entry]);
        lemma_count_append(levels[0].orders, seq![entry], n);
    } else if precedes(side, entry.price, levels[0].price) {
        lemma_side_count_cons(fresh, levels, n);
    } else {
        lemma_rest_count(levels.drop_first(), entry, side, n);
        lemma_side_count_cons(levels[0], rest_order(levels.drop_first(), entry, side), n);
    }
}

/// A well-formed side holds no entry with a sequence number beyond its bound.
proof fn lemma_side_count_beyond(levels: Seq<LevelView>, side: Side, max_ordinal: u64, n: u64)
    requires
        side_ok(levels, side, max_ordinal),
        max_ordinal < n,
    ensures
        count_in_side(levels, n) == 0,
    decreases levels.len(),
{
    if levels.len() > 0 {
        lemma_side_tail(levels, side, max_ordinal);
        lemma_side_count_beyond(levels.drop_first(), side, max_ordinal, n);
        assert(queue_ok(levels[0].orders, levels[0].price, side, max_ordinal));
        lemma_queue_count_beyond(levels[0].orders, levels[0].price, side, max_ordinal, n);
    }
}

proof fn lemma_queue_count_beyond(q: Seq<PartialOrder>, price: u64, side: Side, max_ordinal: u64, n: u64)
    requires
        queue_ok(q, price, side, max_ordinal),
        max_ordinal < n,
    ensures
        count_in_queue(q, n) == 0,
    decreases q.len(),
{
    if q.len() > 0 {
        lemma_queue_tail(q, price, side, max_ordinal);
        lemma_queue_count_beyond(q.drop_first(), price, side, max_ordinal, n);
    }
}

/// Every entry of the queue satisfies `pred` of its price and signer.
pub open spec fn queue_all(q: Seq<PartialOrder>, pred: spec_fn(u64, Seq<char>) -> bool) -> bool {
    forall|k: int| 0 <= k < q.len() ==> pred(#[trigger] q[k].price, q[k].signer@)
}

/// Matching a queue keeps any property of the entries' prices and signers.
proof fn lemma_queue_entries(
    q: Seq<PartialOrder>,
    signer: Seq<char>,
    need: u64,
    price: u64,
    pred: spec_fn(u64, Seq<char>) -> bool,
)
    requires
        queue_all(q, pred),
    ensures
        queue_all(match_queue(q, signer, need, price).0, pred),
    decreases q.len(),
{
    if q.len() == 0 || need == 0 {
    } else {
        let head = q[0];
        let tail = q.drop_first();
        assert(queue_all(tail, pred)) by {
            assert forall|k: int| 0 <= k < tail.len() implies pred(#[trigger] tail[k].price, tail[k].signer@) by {
                assert(tail[k] == q[k + 1]);
            }
        }
        if head.signer@ == signer {
            lemma_queue_entries(tail, signer, need, price, pred);
            let rest = match_queue(tail, signer, need, price).0;
            let r = seq![head] + rest;
            assert forall|k: int| 0 <= k < r.len() implies pred(#[trigger] r[k].price, r[k].signer@) by {
                lemma_concat_index(seq![head], rest, k);
            }
        } else if head.remaining >= need {
            let kept = if head.remaining > need {
                seq![PartialOrder { remaining: (head.remaining - need) as u64, ..head }]
            } else {
                Seq::empty()
            };
            let r = kept + tail;
            assert forall|k: int| 0 <= k < r.len() implies pred(#[trigger] r[k].price, r[k].signer@) by {
                lemma_concat_index(kept, tail, k);
            }
        } else {
            lemma_queue_entries(tail, signer, (need - head.remaining) as u64, price, pred);
        }
    }
}

/// Matching a side keeps any property of the entries' prices and signers.
proof fn lemma_levels_entries(
    levels: Seq<LevelView>,
    incoming: Side,
    limit: u64,
    signer: Seq<char>,
    need: u64,
    pred: spec_fn(u64, Seq<char>) -> bool,
)
    requires
        all_entries(levels, pred),
    ensures
        all_entries(match_levels(levels, incoming, limit, signer, need).0, pred),
    decreases levels.len(),
{
    if levels.len() == 0 || need == 0 || !crosses(incoming, limit, levels[0].price) {
    } else {
        let level = levels[0];
        let tail = levels.drop_first();
        let (queue, fills, left) = match_queue(level.orders, signer, need, level.price);
        assert(all_entries(tail, pred)) by {
            assert forall|i: int, j: int| 0 <= i < tail.len() && 0 <= j < tail[i].orders.len() implies pred(
                #[trigger] tail[i].orders[j].price,
                tail[i].orders[j].signer@,
            ) by {
                assert(tail[i] == levels[i + 1]);
            }
        }
        assert(queue_all(level.orders, pred)) by {
            assert forall|k: int| 0 <= k < level.orders.len() implies pred(
                #[trigger] level.orders[k].price,
                level.orders[k].signer@,
            ) by {
                assert(levels[0].orders[k] == level.orders[k]);
            }
        }
        lemma_queue_entries(level.orders, signer, need, level.price, pred);
        lemma_levels_entries(tail, incoming, limit, signer, left, pred);
        let rest = match_levels(tail, incoming, limit, signer, left).0;
        let head = if queue.len() == 0 {
            Seq::empty()
        } else {
            seq![LevelView { price: level.price, orders: queue }]
        };
        let r = head + rest;
        assert forall|i: int, j: int| 0 <= i < r.len() && 0 <= j < r[i].orders.len() implies pred(
            #[trigger] r[i].orders[j].price,
            r[i].orders[j].signer@,
        ) by {
            if i < head.len() {
                assert(r[i].orders == queue);
                assert(queue[j] == r[i].orders[j]);
            } else {
                assert(r[i] == rest[i - head.len()]);
            }
        }
    }
}

/// Queuing an entry that satisfies a property of prices and signers keeps
/// it of the whole side.
proof fn lemma_rest_entries(
    levels: Seq<LevelView>,
    entry: PartialOrder,
    side: Side,
    pred: spec_fn(u64, Seq<char>) -> bool,
)
    requires
        all_entries(levels, pred),
        pred(entry.price, entry.signer@),
    ensures
        all_entries(rest_order(levels, entry, side), pred),
    decreases levels.len(),
{
    let r = rest_order(levels, entry, side);
    if levels.len() == 0 {
    } else if levels[0].price == entry.price {
        assert forall|i: int, j: int| 0 <= i < r.len() && 0 <= j < r[i].orders.len() implies pred(
            #[trigger] r[i].orders[j].price,
            r[i].orders[j].signer@,
        ) by {
            if i == 0 {
                if j < levels[0].orders.len() {
                    assert(r[0].orders[j] == levels[0].orders[j]);
                }
            } else {
                assert(r[i] == levels[i]);
            }
        }
    } else if precedes(side, entry.price, levels[0].price) {
        assert forall|i: int, j: int| 0 <= i < r.len() && 0 <= j < r[i].orders.len() implies pred(
            #[trigger] r[i].orders[j].price,
            r[i].orders[j].signer@,
        ) by {
            if i > 0 {
                assert(r[i] == levels[i - 1]);
            }
        }
    } else {
        let tail = levels.drop_first();
        assert(all_entries(tail, pred)) by {
            assert forall|i: int, j: int| 0 <= i < tail.len() && 0 <= j < tail[i].orders.len() implies pred(
                #[trigger] tail[i].orders[j].price,
                tail[i].orders[j].signer@,
            ) by {
                assert(tail[i] == levels[i + 1]);
            }
        }
        lemma_rest_entries(tail, entry, side, pred);
        let rest = rest_order(tail, entry, side);
        assert forall|i: int, j: int| 0 <= i < r.len() && 0 <= j < r[i].orders.len() implies pred(
            #[trigger] r[i].orders[j].price,
            r[i].orders[j].signer@,
        ) by {
            if i > 0 {
                assert(r[i] == rest[i - 1]);
            }
        }
    }
}

/// When a queue leaves part of an order unfilled, only the order's own
/// signer's entries are left in it.
proof fn lemma_queue_leftover_own(q: Seq<PartialOrder>, signer: Seq<char>, need: u64, price: u64)
    ensures
        ({
            let (rest, fills, left) = match_queue(q, signer, need, price);
            left > 0 ==> forall|k: int| 0 <= k < rest.len() ==> (#[trigger] rest[k]).signer@ == signer
        }),
    decreases q.len(),
{
    if q.len() == 0 || need == 0 {
    } else {
        let head = q[0];
        let tail = q.drop_first();
        if head.signer@ == signer {
            lemma_queue_leftover_own(tail, signer, need, price);
            let rest = match_queue(tail, signer, need, price).0;
            assert forall|k: int| 0 <= k < (seq![head] + rest).len() && match_queue(tail, signer, need, price).2 > 0
                implies (#[trigger] (seq![head] + rest)[k]).signer@ == signer by {
                lemma_concat_index(seq![head], rest, k);
            }
        } else if head.remaining >= need {
        } else {
            lemma_queue_leftover_own(tail, signer, (need - head.remaining) as u64, price);
        }
    }
}

/// When a side leaves part of an order unfilled, every entry left on it at
/// a price the order crosses is the order's own signer's.
proof fn lemma_levels_leftover_own(
    levels: Seq<LevelView>,
    incoming: Side,
    limit: u64,
    signer: Seq<char>,
    need: u64,
    max_ordinal: u64,
)
    requires
        side_ok(levels, incoming.opposite(), max_ordinal),
    ensures
        ({
            let (rest, fills, left) = match_levels(levels, incoming, limit, signer, need);
            left > 0 ==> all_entries(rest, |p: u64, s: Seq<char>| crosses(incoming, limit, p) ==> s == signer)
        }),
    decreases levels.len(),
{
    let side = incoming.opposite();
    let own = |p: u64, s: Seq<char>| crosses(incoming, limit, p) ==> s == signer;
    if levels.len() == 0 || need == 0 {
    } else if !crosses(incoming, limit, levels[0].price) {
        assert forall|i: int, j: int| 0 <= i < levels.len() && 0 <= j < levels[i].orders.len() implies own(
            #[trigger] levels[i].orders[j].price,
            levels[i].orders[j].signer@,
        ) by {
            assert(queue_ok(levels[i].orders, levels[i].price, side, max_ordinal));
            assert(levels[i].orders[j].price == levels[i].price);
            if i > 0 {
                assert(precedes(side, levels[0].price, levels[i].price));
            }
        }
    } else {
        let level = levels[0];
        let tail = levels.drop_first();
        let (queue, fills, left) = match_queue(level.orders, signer, need, level.price);
        let (rest, more, left2) = match_levels(tail, incoming, limit, signer, left);
        lemma_side_tail(levels, side, max_ordinal);
        lemma_queue_leftover_own(level.orders, signer, need, level.price);
        lemma_levels_leftover_own(tail, incoming, limit, signer, left, max_ordinal);
        lemma_match_levels_conserves(tail, incoming, limit, signer, left);
        if left2 > 0 {
            let head = if queue.len() == 0 {
                Seq::empty()
            } else {
                seq![LevelView { price: level.price, orders: queue }]
            };
            let r = head + rest;
            assert forall|i: int, j: int| 0 <= i < r.len() && 0 <= j < r[i].orders.len() implies own(
                #[trigger] r[i].orders[j].price,
                r[i].orders[j].signer@,
            ) by {
                if i < head.len() {
                    assert(r[i].orders == queue);
                    assert(queue[j] == r[i].orders[j]);
                } else {
                    assert(r[i] == rest[i - head.len()]);
                }
            }
        }
    }
}

/// On a well-formed book in which no sequence number occurs twice and no
/// bid crosses an ask of another signer, processing an order keeps both
/// properties: matching only removes or reduces entries, and the rest of
/// the order rests only where every crossing entry is its own signer's.
pub proof fn law_process_keeps_book_consistent(book: BookView, order: Order, max_ordinal: u64, ordinal: u64)
    requires
        side_ok(book.bids, Side::Buy, max_ordinal),
        side_ok(book.asks, Side::Sell, max_ordinal),
        max_ordinal < ordinal,
        distinct_ordinals(book),
        uncrossed_between_signers(book),
    ensures
        distinct_ordinals(book_after(book, order, ordinal).0),
        uncrossed_between_signers(book_after(book, order, ordinal).0),
{
    let after = book_after(book, order, ordinal).0;
    let x = order.signer@;
    match order.side {
        Side::Buy => {
            let (asks, fills, left) = match_levels(book.asks, Side::Buy, order.price, x, order.amount);
            let entry = resting(order, ordinal, left);
            assert forall|n: u64| #[trigger] count_in_side(after.bids, n) + count_in_side(after.asks, n) <= 1 by {
                assert(count_in_side(book.bids, n) + count_in_side(book.asks, n) <= 1);
                lemma_levels_count(book.asks, Side::Buy, order.price, x, order.amount, n);
                if left > 0 {
                    lemma_rest_count(book.bids, entry, Side::Buy, n);
                    if n == ordinal {
                        lemma_side_count_beyond(book.bids, Side::Buy, max_ordinal, n);
                        lemma_side_count_beyond(book.asks, Side::Sell, max_ordinal, n);
                    }
                }
            }
            let p = |bid_price: u64, bid_signer: Seq<char>|
                all_entries(
                    asks,
                    |ask_price: u64, ask_signer: Seq<char>| bid_price >= ask_price ==> bid_signer == ask_signer,
                );
            assert forall|i: int, j: int| 0 <= i < book.bids.len() && 0 <= j < book.bids[i].orders.len() implies p(
                #[trigger] book.bids[i].orders[j].price,
                book.bids[i].orders[j].signer@,
            ) by {
                let bp = book.bids[i].orders[j].price;
                let bs = book.bids[i].orders[j].signer@;
                let q = |ask_price: u64, ask_signer: Seq<char>| bp >= ask_price ==> bs == ask_signer;
                assert(all_entries(book.asks, q));
                lemma_levels_entries(book.asks, Side::Buy, order.price, x, order.amount, q);
            }
            if left > 0 {
                lemma_levels_leftover_own(book.asks, Side::Buy, order.price, x, order.amount, max_ordinal);
                assert(p(entry.price, entry.signer@)) by {
                    assert forall|i: int, j: int|
                        0 <= i < asks.len() && 0 <= j < asks[i].orders.len() && entry.price
                            >= #[trigger] asks[i].orders[j].price implies x == asks[i].orders[j].signer@ by {
                        assert(crosses(Side::Buy, order.price, asks[i].orders[j].price) ==> asks[i].orders[j].signer@ == x);
                    }
                }
                lemma_rest_entries(book.bids, entry, Side::Buy, p);
            }
        },
        Side::Sell => {
            let (bids, fills, left) = match_levels(book.bids, Side::Sell, order.price, x, order.amount);
            let entry = resting(order, ordinal, left);
            assert forall|n: u64| #[trigger] count_in_side(after.bids, n) + count_in_side(after.asks, n) <= 1 by {
                assert(count_in_side(book.bids, n) + count_in_side(book.asks, n) <= 1);
                lemma_levels_count(book.bids, Side::Sell, order.price, x, order.amount, n);
                if left > 0 {
                    lemma_rest_count(book.asks, entry, Side::Sell, n);
                    if n == ordinal {
                        lemma_side_count_beyond(book.bids, Side::Buy, max_ordinal, n);
                        lemma_side_count_beyond(book.asks, Side::Sell, max_ordinal, n);
                    }
                }
            }
            let p = |bid_price: u64, bid_signer: Seq<char>|
                all_entries(
                    book.asks,
                    |ask_price: u64, ask_signer: Seq<char>| bid_price >= ask_price ==> bid_signer == ask_signer,
                );
            lemma_levels_entries(book.bids, Side::Sell, order.price, x, order.amount, p);
            if left > 0 {
                lemma_levels_leftover_own(book.bids, Side::Sell, order.price, x, order.amount, max_ordinal);
            }
            assert forall|i: int, j: int|
                #![trigger bids[i].orders[j]]
                0 <= i < bids.len() && 0 <= j < bids[i].orders.len() implies all_entries(
                after.asks,
                |ask_price: u64, ask_signer: Seq<char>|
                    bids[i].orders[j].price >= ask_price ==> bids[i].orders[j].signer@ == ask_signer,
            ) by {
                let bp = bids[i].orders[j].price;
                let bs = bids[i].orders[j].signer@;
                let q = |ask_price: u64, ask_signer: Seq<char>| bp >= ask_price ==> bs == ask_signer;
                assert(p(bp, bs));
                assert(all_entries(book.asks, q));
                if left > 0 {
                    assert(crosses(Side::Sell, order.price, bp) ==> bs == x);
                    assert(q(entry.price, entry.signer@));
                    lemma_rest_entries(book.asks, entry, Side::Sell, q);
                }
            }
        },
    }
}


/// The quantity still to be matched on the queue's entries with sequence
/// number `n`.
pub open spec fn remaining_in_queue(q: Seq<PartialOrder>, n: u64) -> int
    decreases q.len(),
{
    if q.len() == 0 {
        0
    } else {
        (if q[0].ordinal == n { q[0].remaining as int } else { 0 }) + remaining_in_queue(q.drop_first(), n)
    }
}

/// The quantity still to be matched on the side's entries with sequence
/// number `n`.
pub open spec fn remaining_in_side(levels: Seq<LevelView>, n: u64) -> int
    decreases levels.len(),
{
    if levels.len() == 0 {
        0
    } else {
        remaining_in_queue(levels[0].orders, n) + remaining_in_side(levels.drop_first(), n)
    }
}

/// The quantity filled from the entries with sequence number `n`.
pub open spec fn filled_for(fills: Seq<PartialOrder>, n: u64) -> int
    decreases fills.len(),
{
    if fills.len() == 0 {
        0
    } else {
        (if fills[0].ordinal == n { fills[0].amount as int } else { 0 }) + filled_for(fills.drop_first(), n)
    }
}

proof fn lemma_remaining_append(a: Seq<PartialOrder>, b: Seq<PartialOrder>, n: u64)
    ensures
        remaining_in_queue(a + b, n) == remaining_in_queue(a, n) + remaining_in_queue(b, n),
    decreases a.len(),
{
    if a.len() == 0 {
        assert(a + b =~= b);
    } else {
        assert((a + b)[0] == a[0]);
        assert((a + b).drop_first() =~= a.drop_first() + b);
        lemma_remaining_append(a.drop_first(), b, n);
    }
}

proof fn lemma_filled_append(a: Seq<PartialOrder>, b: Seq<PartialOrder>, n: u64)
    ensures
        filled_for(a + b, n) == filled_for(a, n) + filled_for(b, n),
    decreases a.len(),
{
    if a.len() == 0 {
        assert(a + b =~= b);
    } else {
        assert((a + b)[0] == a[0]);
        assert((a + b).drop_first() =~= a.drop_first() + b);
        lemma_filled_append(a.drop_first(), b, n);
    }
}

proof fn lemma_remaining_single(x: PartialOrder, n: u64)
    ensures
        remaining_in_queue(seq![x], n) == (if x.ordinal == n { x.remaining as int } else { 0 }),
        filled_for(seq![x], n) == (if x.ordinal == n { x.amount as int } else { 0 }),
{
    assert(seq![x].drop_first() =~= Seq::<PartialOrder>::empty());
    assert(remaining_in_queue(Seq::<PartialOrder>::empty(), n) == 0);
    assert(filled_for(Seq::<PartialOrder>::empty(), n) == 0);
}

proof fn lemma_remaining_side_cons(l: LevelView, rest: Seq<LevelView>, n: u64)
    ensures
        remaining_in_side(seq![l] + rest, n) == remaining_in_queue(l.orders, n) + remaining_in_side(rest, n),
{
    assert((seq![l] + rest)[0] == l);
    assert((seq![l] + rest).drop_first() =~= rest);
}

/// Matching a queue takes from each entry exactly what is filled from it.
proof fn lemma_queue_quantities(q: Seq<PartialOrder>, signer: Seq<char>, need: u64, price: u64, n: u64)
    ensures
        ({
            let (rest, fills, left) = match_queue(q, signer, need, price);
            remaining_in_queue(rest, n) + filled_for(fills, n) == remaining_in_queue(q, n)
        }),
    decreases q.len(),
{
    if q.len() == 0 || need == 0 {
        assert(filled_for(Seq::<PartialOrder>::empty(), n) == 0);
    } else {
        let head = q[0];
        let tail = q.drop_first();
        if head.signer@ == signer {
            lemma_queue_quantities(tail, signer, need, price, n);
            let rest = match_queue(tail, signer, need, price).0;
            lemma_remaining_append(seq![head], rest, n);
            lemma_remaining_single(head, n);
        } else if head.remaining >= need {
            let reduced = PartialOrder { remaining: (head.remaining - need) as u64, ..head };
            let kept = if head.remaining > need {
                seq![reduced]
            } else {
                Seq::empty()
            };
            lemma_remaining_append(kept, tail, n);
            lemma_remaining_single(reduced, n);
            lemma_remaining_single(taken_from(head, need, price), n);
            assert(remaining_in_queue(Seq::<PartialOrder>::empty(), n) == 0);
        } else {
            let filled = PartialOrder { amount: head.remaining, remaining: 0, ..head };
            let left = (need - head.remaining) as u64;
            let fills = match_queue(tail, signer, left, price).1;
            lemma_queue_quantities(tail, signer, left, price, n);
            lemma_filled_append(seq![filled], fills, n);
            lemma_remaining_single(filled, n);
        }
    }
}

/// Matching a side takes from each entry exactly what is filled from it.
proof fn lemma_levels_quantities(
    levels: Seq<LevelView>,
    incoming: Side,
    limit: u64,
    signer: Seq<char>,
    need: u64,
    n: u64,
)
    ensures
        ({
            let (rest, fills, left) = match_levels(levels, incoming, limit, signer, need);
            remaining_in_side(rest, n) + filled_for(fills, n) == remaining_in_side(levels, n)
        }),
    decreases levels.len(),
{
    if levels.len() == 0 || need == 0 || !crosses(incoming, limit, levels[0].price) {
        assert(filled_for(Seq::<PartialOrder>::empty(), n) == 0);
    } else {
        let level = levels[0];
        let (queue, fills, left) = match_queue(level.orders, signer, need, level.price);
        let (rest, more, left2) = match_levels(levels.drop_first(), incoming, limit, signer, left);
        lemma_queue_quantities(level.orders, signer, need, level.price, n);
        lemma_levels_quantities(levels.drop_first(), incoming, limit, signer, left, n);
        lemma_filled_append(fills, more, n);
        if queue.len() > 0 {
            lemma_remaining_side_cons(LevelView { price: level.price, orders: queue }, rest, n);
        } else {
            assert(Seq::<LevelView>::empty() + rest =~= rest);
            assert(remaining_in_queue(queue, n) == 0);
        }
    }
}

/// Queuing an entry adds exactly its quantity under its sequence number.
proof fn lemma_rest_quantities(levels: Seq<LevelView>, entry: PartialOrder, side: Side, n: u64)
    ensures
        remaining_in_side(rest_order(levels, entry, side), n) == remaining_in_side(levels, n) + (if entry.ordinal
            == n {
            entry.remaining as int
        } else {
            0
        }),
    decreases levels.len(),
{
    let fresh = LevelView { price: entry.price, orders: seq![entry] };
    lemma_remaining_single(entry, n);
    if levels.len() == 0 {
        assert(seq![fresh].drop_first() =~= Seq::<LevelView>::empty());
        assert(remaining_in_side(Seq::<LevelView>::empty(), n) == 0);
    } else if levels[0].price == entry.price {
        let grown = LevelView { price: entry.price, orders: levels[0].orders.push(entry) };
        lemma_remaining_side_cons(grown, levels.drop_first(), n);
        assert(levels[0].orders.push(entry) =~= levels[0].orders + seq![entry]);
        lemma_remaining_append(levels[0].orders, seq![entry], n);
    } else if precedes(side, entry.price, levels[0].price) {
        lemma_remaining_side_cons(fresh, levels, n);
    } else {
        lemma_rest_quantities(levels.drop_first(), entry, side, n);
        lemma_remaining_side_cons(levels[0], rest_order(levels.drop_first(), entry, side), n);
    }
}

/// Processing an order changes the book only by what it trades and what it
/// leaves: on the opposite side, every entry keeps its quantity except for
/// exactly what was filled from it (so entries and levels that gave nothing
/// are untouched, and nothing is lost), and on the order's own side the only
/// change is the unfilled rest of the order, under its sequence number.
pub proof fn law_process_moves_only_filled_quantity(book: BookView, order: Order, ordinal: u64, n: u64)
    ensures
        ({
            let (after, fills) = book_after(book, order, ordinal);
            let rest = if n == ordinal { order.amount - total_amount(fills) } else { 0 };
            &&& order.side == Side::Buy ==> {
                &&& remaining_in_side(after.asks, n) + filled_for(fills, n) == remaining_in_side(book.asks, n)
                &&& remaining_in_side(after.bids, n) == remaining_in_side(book.bids, n) + rest
            }
            &&& order.side == Side::Sell ==> {
                &&& remaining_in_side(after.bids, n) + filled_for(fills, n) == remaining_in_side(book.bids, n)
                &&& remaining_in_side(after.asks, n) == remaining_in_side(book.asks, n) + rest
            }
        }),
{
    law_process_conserves_quantity(book, order, ordinal);
    match order.side {
        Side::Buy => {
            let (asks, fills, left) = match_levels(book.asks, Side::Buy, order.price, order.signer@, order.amount);
            lemma_match_levels_conserves(book.asks, Side::Buy, order.price, order.signer@, order.amount);
            lemma_levels_quantities(book.asks, Side::Buy, order.price, order.signer@, order.amount, n);
            if left > 0 {
                lemma_rest_quantities(book.bids, resting(order, ordinal, left), Side::Buy, n);
            }
        },
        Side::Sell => {
            let (bids, fills, left) = match_levels(book.bids, Side::Sell, order.price, order.signer@, order.amount);
            lemma_match_levels_conserves(book.bids, Side::Sell, order.price, order.signer@, order.amount);
            lemma_levels_quantities(book.bids, Side::Sell, order.price, order.signer@, order.amount, n);
            if left > 0 {
                lemma_rest_quantities(book.asks, resting(order, ordinal, left), Side::Sell, n);
            }
        },
    }
}


/// Matching a queue whose entries all rest at `price` gives fills at
/// `price` only, and a queue that gave no fill is left as it was.
proof fn lemma_queue_untouched(q: Seq<PartialOrder>, signer: Seq<char>, need: u64, price: u64)
    requires
        forall|k: int| 0 <= k < q.len() ==> #[trigger] q[k].price == price,
    ensures
        ({
            let (rest, fills, left) = match_queue(q, signer, need, price);
            &&& forall|k: int| 0 <= k < fills.len() ==> #[trigger] fills[k].price == price
            &&& fills.len() == 0 ==> rest == q
        }),
    decreases q.len(),
{
    if q.len() == 0 || need == 0 {
    } else {
        let head = q[0];
        let tail = q.drop_first();
        assert forall|k: int| 0 <= k < tail.len() implies #[trigger] tail[k].price == price by {
            assert(tail[k] == q[k + 1]);
        }
        if head.signer@ == signer {
            lemma_queue_untouched(tail, signer, need, price);
            let rest = match_queue(tail, signer, need, price).0;
            if match_queue(tail, signer, need, price).1.len() == 0 {
                assert(seq![head] + rest =~= q);
            }
        } else if head.remaining >= need {
        } else {
            let filled = PartialOrder { amount: head.remaining, remaining: 0, ..head };
            let left = (need - head.remaining) as u64;
            lemma_queue_untouched(tail, signer, left, price);
            let fills = match_queue(tail, signer, left, price).1;
            assert forall|k: int| 0 <= k < (seq![filled] + fills).len() implies #[trigger] (seq![filled]
                + fills)[k].price == price by {
                if k > 0 {
                    assert((seq![filled] + fills)[k] == fills[k - 1]);
                }
            }
        }
    }
}

/// A level of a well-formed side that gave no fill is still in the side
/// after matching, unchanged.
proof fn lemma_levels_untouched(
    levels: Seq<LevelView>,
    incoming: Side,
    limit: u64,
    signer: Seq<char>,
    need: u64,
    side: Side,
    max_ordinal: u64,
    i: int,
)
    requires
        side_ok(levels, side, max_ordinal),
        0 <= i < levels.len(),
        forall|k: int|
            0 <= k < match_levels(levels, incoming, limit, signer, need).1.len() ==> #[trigger] match_levels(
                levels,
                incoming,
                limit,
                signer,
                need,
            ).1[k].price != levels[i].price,
    ensures
        match_levels(levels, incoming, limit, signer, need).0.contains(levels[i]),
    decreases levels.len(),
{
    if levels.len() == 0 || need == 0 || !crosses(incoming, limit, levels[0].price) {
        assert(levels[i] == match_levels(levels, incoming, limit, signer, need).0[i]);
    } else {
        let level = levels[0];
        let tail = levels.drop_first();
        let (queue, fills, left) = match_queue(level.orders, signer, need, level.price);
        let (rest, more, left2) = match_levels(tail, incoming, limit, signer, left);
        let head = if queue.len() == 0 {
            Seq::empty()
        } else {
            seq![LevelView { price: level.price, orders: queue }]
        };
        let all = fills + more;
        assert(match_levels(levels, incoming, limit, signer, need).1 == all);
        assert(levels[0].orders.len() > 0);
        assert(queue_ok(levels[0].orders, levels[0].price, side, max_ordinal));
        assert forall|k: int| 0 <= k < level.orders.len() implies #[trigger] level.orders[k].price
            == level.price by {
            assert(level.orders[k] == levels[0].orders[k]);
        }
        lemma_queue_untouched(level.orders, signer, need, level.price);
        if i == 0 {
            if fills.len() > 0 {
                assert(all[0] == fills[0]);
                assert(match_levels(levels, incoming, limit, signer, need).1[0].price != levels[0].price);
                assert(false);
            }
            assert(queue == level.orders);
            assert(LevelView { price: level.price, orders: queue } == level);
            assert((head + rest)[0] == levels[0]);
        } else {
            assert forall|i2: int, j2: int| 0 <= i2 < j2 < tail.len() implies precedes(
                side,
                tail[i2].price,
                tail[j2].price,
            ) by {
                assert(tail[i2] == levels[i2 + 1]);
                assert(tail[j2] == levels[j2 + 1]);
            }
            assert forall|i2: int| 0 <= i2 < tail.len() implies {
                &&& #[trigger] tail[i2].orders.len() > 0
                &&& queue_ok(tail[i2].orders, tail[i2].price, side, max_ordinal)
            } by {
                assert(tail[i2] == levels[i2 + 1]);
            }
            assert(tail[i - 1] == levels[i]);
            assert forall|k: int| 0 <= k < more.len() implies #[trigger] more[k].price != tail[i - 1].price by {
                assert(all[fills.len() + k] == more[k]);
                assert(match_levels(levels, incoming, limit, signer, need).1[fills.len() + k].price
                    != levels[i].price);
            }
            lemma_levels_untouched(tail, incoming, limit, signer, left, side, max_ordinal, i - 1);
            let j = choose|j: int| 0 <= j < rest.len() && rest[j] == levels[i];
            assert((head + rest)[head.len() + j] == levels[i]);
        }
    }
}

/// Processing an order leaves every level of the opposite side that gave
/// no fill in the book, with its queue unchanged: levels beyond the limit
/// price, beyond the last level that filled the order, and those holding
/// only the order's own signer stay as they were.
pub proof fn law_process_keeps_untouched_levels(book: BookView, order: Order, max_ordinal: u64, ordinal: u64, i: int)
    requires
        side_ok(book.bids, Side::Buy, max_ordinal),
        side_ok(book.asks, Side::Sell, max_ordinal),
    ensures
        ({
            let (after, fills) = book_after(book, order, ordinal);
            &&& order.side == Side::Buy && 0 <= i < book.asks.len() && (forall|k: int|
                0 <= k < fills.len() ==> #[trigger] fills[k].price != book.asks[i].price)
                ==> after.asks.contains(book.asks[i])
            &&& order.side == Side::Sell && 0 <= i < book.bids.len() && (forall|k: int|
                0 <= k < fills.len() ==> #[trigger] fills[k].price != book.bids[i].price)
                ==> after.bids.contains(book.bids[i])
        }),
{
    let (after, fills) = book_after(book, order, ordinal);
    if order.side == Side::Buy && 0 <= i < book.asks.len() && (forall|k: int|
        0 <= k < fills.len() ==> #[trigger] fills[k].price != book.asks[i].price) {
        lemma_levels_untouched(book.asks, Side::Buy, order.price, order.signer@, order.amount, Side::Sell, max_ordinal, i);
    }
    if order.side == Side::Sell && 0 <= i < book.bids.len() && (forall|k: int|
        0 <= k < fills.len() ==> #[trigger] fills[k].price != book.bids[i].price) {
        lemma_levels_untouched(book.bids, Side::Sell, order.price, order.signer@, order.amount, Side::Buy, max_ordinal, i);
    }
}

/// An entry of a queue under a sequence number that no fill carries is still
/// in the queue after matching, unchanged.
proof fn lemma_queue_keeps(q: Seq<PartialOrder>, signer: Seq<char>, need: u64, price: u64, j: int)
    requires
        0 <= j < q.len(),
        forall|k: int|
            0 <= k < match_queue(q, signer, need, price).1.len() ==> #[trigger] match_queue(
                q,
                signer,
                need,
                price,
            ).1[k].ordinal != q[j].ordinal,
    ensures
        match_queue(q, signer, need, price).0.contains(q[j]),
    decreases q.len(),
{
    if q.len() == 0 || need == 0 {
        assert(match_queue(q, signer, need, price).0[j] == q[j]);
    } else {
        let head = q[0];
        let tail = q.drop_first();
        let fills = match_queue(q, signer, need, price).1;
        if head.signer@ == signer {
            let rest = match_queue(tail, signer, need, price).0;
            if j == 0 {
                assert((seq![head] + rest)[0] == q[0]);
            } else {
                assert(tail[j - 1] == q[j]);
                lemma_queue_keeps(tail, signer, need, price, j - 1);
                let l = choose|l: int| 0 <= l < rest.len() && rest[l] == q[j];
                assert((seq![head] + rest)[1 + l] == q[j]);
            }
        } else if head.remaining >= need {
            assert(fills[0].ordinal == head.ordinal);
            let kept = if head.remaining > need {
                seq![PartialOrder { remaining: (head.remaining - need) as u64, ..head }]
            } else {
                Seq::empty()
            };
            assert(j != 0);
            assert((kept + tail)[kept.len() + j - 1] == q[j]);
        } else {
            assert(fills[0].ordinal == head.ordinal);
            let left = (need - head.remaining) as u64;
            let more = match_queue(tail, signer, left, price).1;
            assert(j != 0);
            assert(tail[j - 1] == q[j]);
            assert forall|k: int| 0 <= k < more.len() implies #[trigger] more[k].ordinal != tail[j - 1].ordinal by {
                assert(fills[k + 1] == more[k]);
            }
            lemma_queue_keeps(tail, signer, left, price, j - 1);
        }
    }
}

/// An entry of a side under a sequence number that no fill carries is still
/// in the side after matching, unchanged and at its price.
proof fn lemma_levels_keeps(
    levels: Seq<LevelView>,
    incoming: Side,
    limit: u64,
    signer: Seq<char>,
    need: u64,
    i: int,
    j: int,
)
    requires
        0 <= i < levels.len(),
        0 <= j < levels[i].orders.len(),
        forall|k: int|
            0 <= k < match_levels(levels, incoming, limit, signer, need).1.len() ==> #[trigger] match_levels(
                levels,
                incoming,
                limit,
                signer,
                need,
            ).1[k].ordinal != levels[i].orders[j].ordinal,
    ensures
        exists|l: int|
            0 <= l < match_levels(levels, incoming, limit, signer, need).0.len() && #[trigger] match_levels(
                levels,
                incoming,
                limit,
                signer,
                need,
            ).0[l].price == levels[i].price && match_levels(levels, incoming, limit, signer, need).0[l].orders.contains(
                levels[i].orders[j],
            ),
    decreases levels.len(),
{
    let r = match_levels(levels, incoming, limit, signer, need);
    if levels.len() == 0 || need == 0 || !crosses(incoming, limit, levels[0].price) {
        assert(r.0[i] == levels[i]);
        assert(r.0[i].orders[j] == levels[i].orders[j]);
        assert(r.0[i].orders.contains(levels[i].orders[j]));
        assert(r.0[i].price == levels[i].price);
    } else {
        let level = levels[0];
        let tail = levels.drop_first();
        let (queue, fills, left) = match_queue(level.orders, signer, need, level.price);
        let (rest, more, left2) = match_levels(tail, incoming, limit, signer, left);
        let head = if queue.len() == 0 {
            Seq::empty()
        } else {
            seq![LevelView { price: level.price, orders: queue }]
        };
        assert(r.0 == head + rest);
        assert(r.1 == fills + more);
        if i == 0 {
            assert forall|k: int| 0 <= k < fills.len() implies #[trigger] fills[k].ordinal
                != level.orders[j].ordinal by {
                assert(r.1[k] == fills[k]);
            }
            lemma_queue_keeps(level.orders, signer, need, level.price, j);
            assert(queue.len() > 0);
            assert(r.0[0] == LevelView { price: level.price, orders: queue });
            assert(r.0[0].price == levels[i].price);
            assert(r.0[0].orders.contains(levels[i].orders[j]));
        } else {
            assert(tail[i - 1] == levels[i]);
            assert forall|k: int| 0 <= k < more.len() implies #[trigger] more[k].ordinal
                != tail[i - 1].orders[j].ordinal by {
                assert(r.1[fills.len() + k] == more[k]);
            }
            lemma_levels_keeps(tail, incoming, limit, signer, left, i - 1, j);
            let l = choose|l: int|
                0 <= l < rest.len() && #[trigger] rest[l].price == tail[i - 1].price && rest[l].orders.contains(
                    tail[i - 1].orders[j],
                );
            assert(r.0[head.len() + l] == rest[l]);
            assert(r.0[head.len() + l].price == levels[i].price);
            assert(r.0[head.len() + l].orders.contains(levels[i].orders[j]));
        }
    }
}

/// Processing an order takes only from the entries it fills: every entry of
/// the opposite side under a sequence number that no fill carries is still
/// in the book, unchanged, in a level at its price. An entry filled
/// exactly does not take the entries queued behind it along.
pub proof fn law_process_keeps_unfilled_entries(book: BookView, order: Order, ordinal: u64, i: int, j: int)
    ensures
        ({
            let (after, fills) = book_after(book, order, ordinal);
            &&& order.side == Side::Buy && 0 <= i < book.asks.len() && 0 <= j < book.asks[i].orders.len() && (forall|
                k: int,
            | 0 <= k < fills.len() ==> #[trigger] fills[k].ordinal != book.asks[i].orders[j].ordinal) ==> exists|
                l: int,
            |
                0 <= l < after.asks.len() && #[trigger] after.asks[l].price == book.asks[i].price
                    && after.asks[l].orders.contains(book.asks[i].orders[j])
            &&& order.side == Side::Sell && 0 <= i < book.bids.len() && 0 <= j < book.bids[i].orders.len() && (forall|
                k: int,
            | 0 <= k < fills.len() ==> #[trigger] fills[k].ordinal != book.bids[i].orders[j].ordinal) ==> exists|
                l: int,
            |
                0 <= l < after.bids.len() && #[trigger] after.bids[l].price == book.bids[i].price
                    && after.bids[l].orders.contains(book.bids[i].orders[j])
        }),
{
    let (after, fills) = book_after(book, order, ordinal);
    if order.side == Side::Buy && 0 <= i < book.asks.len() && 0 <= j < book.asks[i].orders.len() && (forall|
        k: int,
    | 0 <= k < fills.len() ==> #[trigger] fills[k].ordinal != book.asks[i].orders[j].ordinal) {
        let r = match_levels(book.asks, Side::Buy, order.price, order.signer@, order.amount);
        assert(after.asks == r.0 && fills == r.1);
        lemma_levels_keeps(book.asks, Side::Buy, order.price, order.signer@, order.amount, i, j);
        let l = choose|l: int|
            0 <= l < r.0.len() && #[trigger] r.0[l].price == book.asks[i].price && r.0[l].orders.contains(
                book.asks[i].orders[j],
            );
        assert(after.asks[l].price == book.asks[i].price);
    }
    if order.side == Side::Sell && 0 <= i < book.bids.len() && 0 <= j < book.bids[i].orders.len() && (forall|
        k: int,
    | 0 <= k < fills.len() ==> #[trigger] fills[k].ordinal != book.bids[i].orders[j].ordinal) {
        let r = match_levels(book.bids, Side::Sell, order.price, order.signer@, order.amount);
        assert(after.bids == r.0 && fills == r.1);
        lemma_levels_keeps(book.bids, Side::Sell, order.price, order.signer@, order.amount, i, j);
        let l = choose|l: int|
            0 <= l < r.0.len() && #[trigger] r.0[l].price == book.bids[i].price && r.0[l].orders.contains(
                book.bids[i].orders[j],
            );
        assert(after.bids[l].price == book.bids[i].price);
    }
}

} // verus!
