//! The order book: both sides held as queues in priority order (best price
//! first; equal prices in arrival order), with continuous matching.
//!
//! A price level is the run of orders at one price inside a side's queue; it
//! exists while at least one order rests at that price.

use crate::types::{opposite, with_qty, Order, Side, Trade};
use vstd::prelude::*;

verus! {

/// Whether a resting order at `maker_price` can trade with an incoming order
/// on side `taker` at `taker_price`.
pub open spec fn crosses(taker: Side, taker_price: u64, maker_price: u64) -> bool {
    match taker {
        Side::Buy => maker_price <= taker_price,
        Side::Sell => maker_price >= taker_price,
    }
}

/// Whether, on side `s`, price `a` is served no later than price `b`.
pub open spec fn ranks_first(s: Side, a: u64, b: u64) -> bool {
    match s {
        Side::Buy => a >= b,
        Side::Sell => a <= b,
    }
}

/// A well-formed queue of side `s`: orders of that side, each with quantity
/// open, best price first.
pub open spec fn queue_ok(q: Seq<Order>, s: Side) -> bool {
    &&& forall|i: int| 0 <= i < q.len() ==> (#[trigger] q[i]).side == s && q[i].qty > 0
    &&& forall|i: int, j: int|
        0 <= i < j < q.len() ==> ranks_first(s, (#[trigger] q[i]).price, (#[trigger] q[j]).price)
}

pub open spec fn has_id(q: Seq<Order>, id: u128) -> bool {
    exists|i: int| 0 <= i < q.len() && (#[trigger] q[i]).id == id
}

/// Whether `q` holds order `id` of `account`.
pub open spec fn placed(q: Seq<Order>, id: u128, account: u64) -> bool {
    exists|i: int| 0 <= i < q.len() && (#[trigger] q[i]).id == id && q[i].account_id == account
}

pub open spec fn ids_distinct(q: Seq<Order>) -> bool {
    forall|i: int, j: int|
        0 <= i < q.len() && 0 <= j < q.len() && i != j ==> (#[trigger] q[i]).id != (#[trigger] q[j]).id
}

/// Matching of `taker` against the opposite queue `q`: the trades, what is
/// left of `q`, and the quantity the taker still has open.
pub open spec fn match_against(q: Seq<Order>, taker: Order) -> (Seq<Trade>, Seq<Order>, u64)
    decreases q.len(),
{
    if taker.qty == 0 || q.len() == 0 || !crosses(taker.side, taker.price, q[0].price) {
        (Seq::empty(), q, taker.qty)
    } else {
        let maker = q[0];
        if maker.qty <= taker.qty {
            let t = Trade {
                maker_order_id: maker.id,
                taker_order_id: taker.id,
                price: maker.price,
                qty: maker.qty,
            };
            let rest = match_against(q.drop_first(), with_qty(taker, (taker.qty - maker.qty) as u64));
            (seq![t] + rest.0, rest.1, rest.2)
        } else {
            let t = Trade {
                maker_order_id: maker.id,
                taker_order_id: taker.id,
                price: maker.price,
                qty: taker.qty,
            };
            (seq![t], q.update(0, with_qty(maker, (maker.qty - taker.qty) as u64)), 0)
        }
    }
}

/// Where an order at `price` joins queue `q` of side `s`: behind every order
/// at the same or a better price.
pub open spec fn rest_index(q: Seq<Order>, s: Side, price: u64) -> nat
    decreases q.len(),
{
    if q.len() == 0 || !ranks_first(s, q[0].price, price) {
        0
    } else {
        1 + rest_index(q.drop_first(), s, price)
    }
}

/// Queue `q` with `o` joined at its place.
pub open spec fn rest_in(q: Seq<Order>, o: Order) -> Seq<Order> {
    q.insert(rest_index(q, o.side, o.price) as int, o)
}

/// The trades that inserting `o` into the book `(bids, asks)` produces.
pub open spec fn trades_for(bids: Seq<Order>, asks: Seq<Order>, o: Order) -> Seq<Trade> {
    match o.side {
        Side::Buy => match_against(asks, o).0,
        Side::Sell => match_against(bids, o).0,
    }
}

/// The book `(bids, asks)` after inserting `o`: the opposite side as matching
/// leaves it, and the order's own side with what is left of it joined.
pub open spec fn book_after(bids: Seq<Order>, asks: Seq<Order>, o: Order) -> (Seq<Order>, Seq<Order>) {
    match o.side {
        Side::Buy => {
            let m = match_against(asks, o);
            (if m.2 > 0 { rest_in(bids, with_qty(o, m.2)) } else { bids }, m.1)
        },
        Side::Sell => {
            let m = match_against(bids, o);
            (m.1, if m.2 > 0 { rest_in(asks, with_qty(o, m.2)) } else { asks })
        },
    }
}

/// What matching leaves of `q` is a suffix of `q` whose head may have less
/// quantity open; the taker keeps at most what it had.
proof fn lemma_match_shape(q: Seq<Order>, taker: Order)
    requires
        queue_ok(q, opposite(taker.side)),
    ensures
        ({
            let m = match_against(q, taker);
            let d = q.len() - m.1.len();
            &&& 0 <= d <= q.len()
            &&& m.2 <= taker.qty
            &&& forall|i: int|
                0 <= i < m.1.len() ==> with_qty(#[trigger] m.1[i], q[i + d].qty) == q[i + d]
                    && 0 < m.1[i].qty <= q[i + d].qty
            &&& forall|i: int| 0 < i < m.1.len() ==> #[trigger] m.1[i] == q[i + d]
            &&& forall|k: int|
                0 <= k < m.0.len() ==> (#[trigger] m.0[k]).taker_order_id == taker.id
                    && exists|j: int| 0 <= j < q.len() && q[j].id == m.0[k].maker_order_id
                        && q[j].price == m.0[k].price
        }),
    decreases q.len(),
{
    if taker.qty == 0 || q.len() == 0 || !crosses(taker.side, taker.price, q[0].price) {
    } else {
        let maker = q[0];
        if maker.qty <= taker.qty {
            let t2 = with_qty(taker, (taker.qty - maker.qty) as u64);
            let q2 = q.drop_first();
            lemma_match_shape(q2, t2);
            let r = match_against(q2, t2);
            let m = match_against(q, taker);
            assert forall|k: int| 0 <= k < m.0.len() implies (#[trigger] m.0[k]).taker_order_id
                == taker.id && exists|j: int| 0 <= j < q.len() && q[j].id == m.0[k].maker_order_id
                && q[j].price == m.0[k].price by {
                if k == 0 {
                    assert(q[0].id == m.0[0].maker_order_id);
                } else {
                    assert(m.0[k] == r.0[k - 1]);
                    let j = choose|j: int| 0 <= j < q2.len() && q2[j].id == r.0[k - 1].maker_order_id
                        && q2[j].price == r.0[k - 1].price;
                    assert(q[j + 1] == q2[j]);
                }
            }
        } else {
            let m = match_against(q, taker);
            assert(m.1.len() == q.len());
            assert(m.0[0].maker_order_id == q[0].id);
        }
    }
}

/// Matching stops only when the taker is filled, the opposite queue is empty,
/// or its best price no longer crosses.
proof fn lemma_match_stops(q: Seq<Order>, taker: Order)
    ensures
        ({
            let m = match_against(q, taker);
            m.2 == 0 || m.1.len() == 0 || !crosses(taker.side, taker.price, m.1[0].price)
        }),
    decreases q.len(),
{
    if taker.qty == 0 || q.len() == 0 || !crosses(taker.side, taker.price, q[0].price) {
    } else if q[0].qty <= taker.qty {
        lemma_match_stops(q.drop_first(), with_qty(taker, (taker.qty - q[0].qty) as u64));
    }
}

/// The best bid is below the best ask, where both sides hold orders.
pub open spec fn uncrossed(bids: Seq<Order>, asks: Seq<Order>) -> bool {
    bids.len() == 0 || asks.len() == 0 || bids[0].price < asks[0].price
}

/// Inserting an order into an uncrossed book leaves it uncrossed.
proof fn lemma_stays_uncrossed(bids: Seq<Order>, asks: Seq<Order>, o: Order)
    requires
        queue_ok(bids, Side::Buy),
        queue_ok(asks, Side::Sell),
        uncrossed(bids, asks),
    ensures
        uncrossed(book_after(bids, asks, o).0, book_after(bids, asks, o).1),
{
    let q = if o.side == Side::Buy { asks } else { bids };
    let own = if o.side == Side::Buy { bids } else { asks };
    lemma_match_shape(q, o);
    lemma_match_stops(q, o);
    let m = match_against(q, o);
    let d = q.len() - m.1.len();
    if m.1.len() > 0 {
        assert(with_qty(m.1[0], q[d].qty) == q[d]);
        assert(m.1[0].price == q[d].price);
        if d > 0 {
            assert(ranks_first(opposite(o.side), q[0].price, q[d].price));
        }
    }
    if m.2 > 0 {
        let left = with_qty(o, m.2);
        lemma_rest_index_facts(own, o.side, o.price);
        let k = rest_index(own, o.side, o.price);
        let r = rest_in(own, left);
        if k == 0 {
            assert(r[0] == left);
        } else {
            assert(r[0] == own[0]);
        }
    }
}

/// Matching leaves a well-formed queue with no identifier that was not there.
pub(crate) proof fn lemma_match_keeps(q: Seq<Order>, taker: Order)
    requires
        queue_ok(q, opposite(taker.side)),
        ids_distinct(q),
    ensures
        queue_ok(match_against(q, taker).1, opposite(taker.side)),
        ids_distinct(match_against(q, taker).1),
        forall|id: u128| has_id(match_against(q, taker).1, id) ==> has_id(q, id),
        forall|id: u128, a: u64| placed(match_against(q, taker).1, id, a) ==> placed(q, id, a),
        forall|k: int| 0 <= k < match_against(q, taker).0.len() ==> has_id(q, (#[trigger] match_against(q, taker).0[k]).maker_order_id),
        match_against(q, taker).2 <= taker.qty,
{
    lemma_match_shape(q, taker);
    let m = match_against(q, taker);
    let d = q.len() - m.1.len();
    assert forall|i: int, j: int| 0 <= i < j < m.1.len() implies ranks_first(
        opposite(taker.side),
        (#[trigger] m.1[i]).price,
        (#[trigger] m.1[j]).price,
    ) by {
        assert(with_qty(m.1[i], q[i + d].qty) == q[i + d]);
        assert(with_qty(m.1[j], q[j + d].qty) == q[j + d]);
        assert(q[i + d].price == m.1[i].price);
    }
    assert forall|i: int| 0 <= i < m.1.len() implies (#[trigger] m.1[i]).side == opposite(taker.side)
        && m.1[i].qty > 0 by {
        assert(with_qty(m.1[i], q[i + d].qty) == q[i + d]);
    }
    assert forall|i: int, j: int|
        0 <= i < m.1.len() && 0 <= j < m.1.len() && i != j implies (#[trigger] m.1[i]).id != (
        #[trigger] m.1[j]).id by {
        assert(with_qty(m.1[i], q[i + d].qty) == q[i + d]);
        assert(with_qty(m.1[j], q[j + d].qty) == q[j + d]);
    }
    assert forall|id: u128| has_id(m.1, id) implies has_id(q, id) by {
        let i = choose|i: int| 0 <= i < m.1.len() && (#[trigger] m.1[i]).id == id;
        assert(with_qty(m.1[i], q[i + d].qty) == q[i + d]);
    }
    assert forall|id: u128, a: u64| placed(m.1, id, a) implies placed(q, id, a) by {
        let i = choose|i: int| 0 <= i < m.1.len() && (#[trigger] m.1[i]).id == id && m.1[i].account_id == a;
        assert(with_qty(m.1[i], q[i + d].qty) == q[i + d]);
    }
    assert forall|k: int| 0 <= k < m.0.len() implies has_id(q, (#[trigger] m.0[k]).maker_order_id) by {
        let j = choose|j: int| 0 <= j < q.len() && q[j].id == m.0[k].maker_order_id && q[j].price == m.0[k].price;
        assert(q[j].id == m.0[k].maker_order_id);
    }
}

/// `rest_index` is the first position whose price ranks strictly later.
proof fn lemma_rest_index(q: Seq<Order>, s: Side, price: u64, k: int)
    requires
        0 <= k <= q.len(),
        forall|i: int| 0 <= i < k ==> ranks_first(s, (#[trigger] q[i]).price, price),
        k < q.len() ==> !ranks_first(s, q[k].price, price),
    ensures
        rest_index(q, s, price) == k,
    decreases k,
{
    if k > 0 {
        assert(ranks_first(s, q[0].price, price));
        lemma_rest_index(q.drop_first(), s, price, k - 1);
    }
}

/// Joining an order of the queue's side at its place keeps the queue well
/// formed and adds exactly its identifier.
pub(crate) proof fn lemma_rest_keeps(q: Seq<Order>, o: Order)
    requires
        queue_ok(q, o.side),
        ids_distinct(q),
        o.qty > 0,
        !has_id(q, o.id),
    ensures
        queue_ok(rest_in(q, o), o.side),
        ids_distinct(rest_in(q, o)),
        forall|id: u128| has_id(rest_in(q, o), id) <==> (has_id(q, id) || id == o.id),
        forall|id: u128, a: u64|
            placed(rest_in(q, o), id, a) ==> (placed(q, id, a) || (id == o.id && a == o.account_id)),
{
    let k = rest_index(q, o.side, o.price) as int;
    lemma_rest_index_facts(q, o.side, o.price);
    let r = rest_in(q, o);
    assert(r.len() == q.len() + 1);
    assert forall|i: int| 0 <= i < r.len() implies (#[trigger] r[i]).side == o.side && r[i].qty > 0 by {
        if i > k {
            assert(r[i] == q[i - 1]);
        }
    }
    assert forall|i: int, j: int| 0 <= i < j < r.len() implies ranks_first(
        o.side,
        (#[trigger] r[i]).price,
        (#[trigger] r[j]).price,
    ) by {
        if j < k {
        } else if j == k {
            assert(ranks_first(o.side, q[i].price, o.price));
        } else if i < k {
            assert(r[j] == q[j - 1]);
        } else if i == k {
            assert(r[j] == q[j - 1]);
            if k < q.len() {
                assert(!ranks_first(o.side, q[k].price, o.price));
                if j - 1 > k {
                    assert(ranks_first(o.side, q[k].price, q[j - 1].price));
                }
            }
        } else {
            assert(r[i] == q[i - 1]);
            assert(r[j] == q[j - 1]);
        }
    }
    assert forall|i: int, j: int|
        0 <= i < r.len() && 0 <= j < r.len() && i != j implies (#[trigger] r[i]).id != (
        #[trigger] r[j]).id by {
        if i != k && j != k {
            let a = if i < k { i } else { i - 1 };
            let b = if j < k { j } else { j - 1 };
            assert(r[i] == q[a]);
            assert(r[j] == q[b]);
        } else if i == k {
            let b = if j < k { j } else { j - 1 };
            assert(r[j] == q[b]);
        } else {
            let a = if i < k { i } else { i - 1 };
            assert(r[i] == q[a]);
        }
    }
    assert forall|id: u128| has_id(r, id) <==> (has_id(q, id) || id == o.id) by {
        if has_id(r, id) {
            let i = choose|i: int| 0 <= i < r.len() && (#[trigger] r[i]).id == id;
            if i < k {
                assert(r[i] == q[i]);
            } else if i > k {
                assert(r[i] == q[i - 1]);
            }
        }
        if has_id(q, id) {
            let i = choose|i: int| 0 <= i < q.len() && (#[trigger] q[i]).id == id;
            if i < k {
                assert(r[i] == q[i]);
            } else {
                assert(r[i + 1] == q[i]);
            }
        }
        if id == o.id {
            assert(r[k] == o);
        }
    }
    assert forall|id: u128, a: u64| placed(r, id, a) implies (placed(q, id, a) || (id == o.id
        && a == o.account_id)) by {
        let i = choose|i: int| 0 <= i < r.len() && (#[trigger] r[i]).id == id && r[i].account_id == a;
        if i < k {
            assert(r[i] == q[i]);
        } else if i > k {
            assert(r[i] == q[i - 1]);
        }
    }
}

/// The orders before `rest_index` rank at least as well as `price`; the
/// one at it, if any, ranks strictly later.
pub(crate) proof fn lemma_rest_index_facts(q: Seq<Order>, s: Side, price: u64)
    ensures
        rest_index(q, s, price) <= q.len(),
        forall|i: int| 0 <= i < rest_index(q, s, price) ==> ranks_first(s, (#[trigger] q[i]).price, price),
        rest_index(q, s, price) < q.len() ==> !ranks_first(s, q[rest_index(q, s, price) as int].price, price),
    decreases q.len(),
{
    if q.len() > 0 && ranks_first(s, q[0].price, price) {
        let q2 = q.drop_first();
        lemma_rest_index_facts(q2, s, price);
        assert forall|i: int| 0 <= i < rest_index(q, s, price) implies ranks_first(s, (#[trigger] q[i]).price, price) by {
            if i > 0 {
                assert(q[i] == q2[i - 1]);
            }
        }
        if rest_index(q, s, price) < q.len() {
            assert(q[rest_index(q, s, price) as int] == q2[rest_index(q2, s, price) as int]);
        }
    }
}

/// An order that does not cross the best opposite price, or that meets an
/// empty opposite side, makes no trade and rests whole on its own side.
pub proof fn lemma_no_spurious_match(bids: Seq<Order>, asks: Seq<Order>, o: Order)
    requires
        o.qty > 0,
        o.side == Side::Buy ==> asks.len() == 0 || !crosses(Side::Buy, o.price, asks[0].price),
        o.side == Side::Sell ==> bids.len() == 0 || !crosses(Side::Sell, o.price, bids[0].price),
    ensures
        trades_for(bids, asks, o).len() == 0,
        o.side == Side::Buy ==> book_after(bids, asks, o) == (rest_in(bids, o), asks),
        o.side == Side::Sell ==> book_after(bids, asks, o) == (bids, rest_in(asks, o)),
{
    assert(with_qty(o, o.qty) == o);
}

fn crosses_exec(taker: Side, taker_price: u64, maker_price: u64) -> (r: bool)
    ensures
        r == crosses(taker, taker_price, maker_price),
{
    match taker {
        Side::Buy => maker_price <= taker_price,
        Side::Sell => maker_price >= taker_price,
    }
}

fn ranks_first_exec(s: Side, a: u64, b: u64) -> (r: bool)
    ensures
        r == ranks_first(s, a, b),
{
    match s {
        Side::Buy => a >= b,
        Side::Sell => a <= b,
    }
}

/// Matches `taker` against the opposite queue, oldest order of the best price
/// first, at the maker's price. Returns the trades and what the taker has left.
fn match_queue(queue: &mut Vec<Order>, taker: Order) -> (r: (Vec<Trade>, u64))
    requires
        queue_ok(old(queue)@, opposite(taker.side)),
    ensures
        (r.0@, final(queue)@, r.1) == match_against(old(queue)@, taker),
{
    let mut trades: Vec<Trade> = Vec::new();
    let mut left: u64 = taker.qty;
    while left > 0 && queue.len() > 0 && crosses_exec(taker.side, taker.price, queue[0].price)
        invariant
            queue_ok(queue@, opposite(taker.side)),
            left <= taker.qty,
            ({
                let m = match_against(queue@, with_qty(taker, left));
                let m0 = match_against(old(queue)@, taker);
                m0.0 == trades@ + m.0 && m0.1 == m.1 && m0.2 == m.2
            }),
        decreases queue@.len() + left,
    {
        let maker = queue[0];
        let ghost q = queue@;
        let ghost tk = with_qty(taker, left);
        let ghost before = trades@;
        if maker.qty <= left {
            let t = Trade {
                maker_order_id: maker.id,
                taker_order_id: taker.id,
                price: maker.price,
                qty: maker.qty,
            };
            trades.push(t);
            left = left - maker.qty;
            queue.remove(0);
            proof {
                assert(queue@ =~= q.drop_first());
                assert(with_qty(tk, (tk.qty - maker.qty) as u64) == with_qty(taker, left));
                let m = match_against(queue@, with_qty(taker, left));
                assert(match_against(q, tk).0 == seq![t] + m.0);
                assert(before + (seq![t] + m.0) =~= trades@ + m.0);
                assert forall|i: int| 0 <= i < queue@.len() implies (#[trigger] queue@[i]).side
                    == opposite(taker.side) && queue@[i].qty > 0 by {
                    assert(queue@[i] == q[i + 1]);
                }
                assert forall|i: int, j: int| 0 <= i < j < queue@.len() implies ranks_first(
                    opposite(taker.side),
                    (#[trigger] queue@[i]).price,
                    (#[trigger] queue@[j]).price,
                ) by {
                    assert(queue@[i] == q[i + 1]);
                    assert(queue@[j] == q[j + 1]);
                }
            }
        } else {
            let t = Trade {
                maker_order_id: maker.id,
                taker_order_id: taker.id,
                price: maker.price,
                qty: left,
            };
            trades.push(t);
            queue.set(0, maker.with_qty(maker.qty - left));
            left = 0;
            proof {
                assert(queue@ =~= q.update(0, with_qty(maker, (maker.qty - tk.qty) as u64)));
                assert(match_against(q, tk).0 == seq![t]);
                assert(trades@ =~= before + seq![t]);
                assert(trades@ + Seq::<Trade>::empty() =~= trades@);
                assert forall|i: int, j: int| 0 <= i < j < queue@.len() implies ranks_first(
                    opposite(taker.side),
                    (#[trigger] queue@[i]).price,
                    (#[trigger] queue@[j]).price,
                ) by {
                    assert(queue@[i].price == q[i].price);
                    assert(queue@[j].price == q[j].price);
                }
            }
        }
    }
    proof {
        assert(trades@ + Seq::<Trade>::empty() =~= trades@);
    }
    (trades, left)
}

/// Joins `o` to a queue of its own side, behind every order at the same or a
/// better price.
fn rest_order(queue: &mut Vec<Order>, o: Order)
    ensures
        final(queue)@ == rest_in(old(queue)@, o),
{
    let mut k: usize = 0;
    while k < queue.len() && ranks_first_exec(o.side, queue[k].price, o.price)
        invariant
            k <= queue@.len(),
            queue@ == old(queue)@,
            forall|i: int| 0 <= i < k ==> ranks_first(o.side, (#[trigger] queue@[i]).price, o.price),
        decreases queue@.len() - k,
    {
        k = k + 1;
    }
    proof {
        lemma_rest_index(queue@, o.side, o.price, k as int);
    }
    queue.insert(k, o);
}

/// The price levels of queue `q` in its order: each run of orders at one
/// price, as that price and the number of orders in the run.
pub open spec fn levels(q: Seq<Order>) -> Seq<(u64, usize)>
    decreases q.len(),
{
    if q.len() == 0 {
        Seq::empty()
    } else {
        let l = levels(q.drop_last());
        let p = q.last().price;
        if l.len() > 0 && l.last().0 == p {
            l.update(l.len() - 1, (p, (l.last().1 + 1) as usize))
        } else {
            l.push((p, 1usize))
        }
    }
}

/// Orders after a change of price never alter the levels before it.
proof fn lemma_levels_prefix(a: Seq<Order>, b: Seq<Order>)
    requires
        a.len() > 0,
        b.len() > 0 ==> b[0].price != a.last().price,
    ensures
        levels(a).len() <= levels(a + b).len(),
        b.len() > 0 ==> levels(a).len() < levels(a + b).len(),
        forall|k: int| 0 <= k < levels(a).len() ==> levels(a + b)[k] == levels(a)[k],
    decreases b.len(),
{
    if b.len() == 0 {
        assert(a + b =~= a);
    } else {
        let b2 = b.drop_last();
        assert((a + b).drop_last() =~= a + b2);
        lemma_levels_prefix(a, b2);
        lemma_levels_last(a);
        if b2.len() == 0 {
            assert(a + b2 =~= a);
            assert((a + b).last() == b[0]);
        }
    }
}

/// The last level of a non-empty queue is at its last order's price.
proof fn lemma_levels_last(q: Seq<Order>)
    requires
        q.len() > 0,
    ensures
        levels(q).len() > 0,
        levels(q).last().0 == q.last().price,
{
}

/// The book: `bids` best (highest) price first, `asks` best (lowest) price
/// first, each price level in arrival order.
pub struct OrderBook {
    pub bids: Vec<Order>,
    pub asks: Vec<Order>,
}

impl OrderBook {
    /// Both sides are well formed, and no identifier rests twice, within a
    /// side or across the two.
    pub open spec fn wf(&self) -> bool {
        &&& queue_ok(self.bids@, Side::Buy)
        &&& queue_ok(self.asks@, Side::Sell)
        &&& ids_distinct(self.bids@)
        &&& ids_distinct(self.asks@)
        &&& forall|id: u128| !(#[trigger] has_id(self.bids@, id) && has_id(self.asks@, id))
        &&& uncrossed(self.bids@, self.asks@)
    }

    /// Whether order `id` of `account` rests in the book.
    pub open spec fn holds_for(&self, id: u128, account: u64) -> bool {
        placed(self.bids@, id, account) || placed(self.asks@, id, account)
    }

    /// Whether an order with identifier `id` rests in the book.
    pub open spec fn holds(&self, id: u128) -> bool {
        has_id(self.bids@, id) || has_id(self.asks@, id)
    }

    pub fn new() -> (r: OrderBook)
        ensures
            r.wf(),
            r.bids@.len() == 0,
            r.asks@.len() == 0,
    {
        OrderBook { bids: Vec::new(), asks: Vec::new() }
    }

    /// Inserts `order` with continuous matching: while it has quantity open
    /// and crosses the best opposite price, it trades with the oldest order
    /// there, at that order's price; what is left of it then rests on its own
    /// side. Returns the trades in the order they happened.
    pub fn insert_order(&mut self, order: Order) -> (r: Vec<Trade>)
        requires
            old(self).wf(),
            !old(self).holds(order.id),
        ensures
            final(self).wf(),
            r@ == trades_for(old(self).bids@, old(self).asks@, order),
            (final(self).bids@, final(self).asks@) == book_after(old(self).bids@, old(self).asks@, order),
            forall|k: int| 0 <= k < r@.len() ==> old(self).holds((#[trigger] r@[k]).maker_order_id),
            forall|id: u128, a: u64| #[trigger] final(self).holds_for(id, a) ==> old(self).holds_for(id, a)
                || (id == order.id && a == order.account_id),
    {
        proof {
            lemma_stays_uncrossed(self.bids@, self.asks@, order);
        }
        match order.side {
            Side::Buy => {
                proof {
                    lemma_match_keeps(self.asks@, order);
                }
                let (trades, left) = match_queue(&mut self.asks, order);
                if left > 0 {
                    proof {
                        lemma_rest_keeps(self.bids@, with_qty(order, left));
                    }
                    rest_order(&mut self.bids, order.with_qty(left));
                }
                proof {
                    assert forall|id: u128| !(#[trigger] has_id(self.bids@, id) && has_id(self.asks@, id)) by {
                        if has_id(self.asks@, id) {
                            assert(has_id(old(self).asks@, id));
                        }
                        if has_id(self.bids@, id) && id != order.id {
                            assert(has_id(old(self).bids@, id));
                        }
                    }
                }
                trades
            },
            Side::Sell => {
                proof {
                    lemma_match_keeps(self.bids@, order);
                }
                let (trades, left) = match_queue(&mut self.bids, order);
                if left > 0 {
                    proof {
                        lemma_rest_keeps(self.asks@, with_qty(order, left));
                    }
                    rest_order(&mut self.asks, order.with_qty(left));
                }
                proof {
                    assert forall|id: u128| !(#[trigger] has_id(self.bids@, id) && has_id(self.asks@, id)) by {
                        if has_id(self.bids@, id) {
                            assert(has_id(old(self).bids@, id));
                        }
                        if has_id(self.asks@, id) && id != order.id {
                            assert(has_id(old(self).asks@, id));
                        }
                    }
                }
                trades
            },
        }
    }

    /// Whether an order with identifier `id` rests in the book.
    pub fn contains_order(&self, id: u128) -> (r: bool)
        ensures
            r == self.holds(id),
    {
        queue_contains(&self.bids, id) || queue_contains(&self.asks, id)
    }

    /// The best `n` price levels of one side, best first: each price with the
    /// number of orders resting at it.
    pub fn depth(&self, side: Side, n: usize) -> (r: Vec<(u64, usize)>)
        ensures
            ({
                let all = levels(if side == Side::Buy { self.bids@ } else { self.asks@ });
                r@ == if all.len() <= n { all } else { all.take(n as int) }
            }),
    {
        let q = match side {
            Side::Buy => &self.bids,
            Side::Sell => &self.asks,
        };
        let mut levels_seen: Vec<(u64, usize)> = Vec::new();
        let mut i: usize = 0;
        while i < q.len() && (levels_seen.len() < n || (levels_seen.len() == n && n > 0 && levels_seen[n
            - 1].0 == q[i].price))
            invariant
                i <= q@.len(),
                levels_seen@ == levels(q@.take(i as int)),
                levels_seen@.len() <= n,
                forall|k: int| 0 <= k < levels_seen@.len() ==> (#[trigger] levels_seen@[k]).1 <= i,
            decreases q@.len() - i,
        {
            let p = q[i].price;
            let len = levels_seen.len();
            proof {
                assert(q@.take(i + 1).drop_last() =~= q@.take(i as int));
                assert(q@.take(i + 1).last() == q@[i as int]);
            }
            if len > 0 && levels_seen[len - 1].0 == p {
                let c = levels_seen[len - 1].1;
                levels_seen.set(len - 1, (p, c + 1));
            } else {
                levels_seen.push((p, 1));
            }
            i = i + 1;
        }
        proof {
            let all = levels(q@);
            if i == q@.len() {
                assert(q@.take(i as int) =~= q@);
            } else {
                let a = q@.take(i as int);
                let b = q@.skip(i as int);
                assert(a + b =~= q@);
                if n > 0 {
                    if i == 0 {
                        assert(a =~= Seq::<Order>::empty());
                    }
                    lemma_levels_last(a);
                    assert(a.last() == q@[i - 1]);
                    assert(b[0] == q@[i as int]);
                    lemma_levels_prefix(a, b);
                }
                assert(all.take(n as int) =~= levels_seen@);
            }
        }
        levels_seen
    }
}

fn queue_contains(q: &Vec<Order>, id: u128) -> (r: bool)
    ensures
        r == has_id(q@, id),
{
    let mut i: usize = 0;
    while i < q.len()
        invariant
            i <= q@.len(),
            forall|k: int| 0 <= k < i ==> (#[trigger] q@[k]).id != id,
        decreases q@.len() - i,
    {
        if q[i].id == id {
            return true;
        }
        i = i + 1;
    }
    false
}

} // verus!
