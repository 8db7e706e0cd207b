//! Conservation of funds: placing an order moves funds between balances and
//! reservations but does not create or destroy any.

use crate::ledger::{reserved_amount, reserved_asset, reserved_from, settled, Ledger};
use crate::order_book::{
    book_after, crosses, has_id, lemma_match_keeps, lemma_rest_index_facts, lemma_rest_keeps, match_against, placed,
    queue_ok, ranks_first, rest_in, rest_index, trades_for, OrderBook,
};
use crate::settlement::{balance_during, consistent, parties, refund, reservation, settlement_credit, trade_credit};
use crate::types::{opposite, with_qty, Asset, Order, Side, Trade};
use vstd::prelude::*;

verus! {

/// The sum of `f` over `accounts`.
pub open spec fn sum_over(accounts: Seq<u64>, f: spec_fn(u64) -> int) -> int
    decreases accounts.len(),
{
    if accounts.len() == 0 {
        0
    } else {
        f(accounts[0]) + sum_over(accounts.drop_first(), f)
    }
}

/// What resting order `o` holds reserved in `asset`.
pub open spec fn held_by(o: Order, asset: Asset) -> int {
    if reserved_asset(o.side) == asset {
        reserved_amount(o.side, o.price, o.qty)
    } else {
        0
    }
}

/// What the orders of `q` hold reserved in `asset`.
pub open spec fn reserved_in(q: Seq<Order>, asset: Asset) -> int
    decreases q.len(),
{
    if q.len() == 0 {
        0
    } else {
        held_by(q[0], asset) + reserved_in(q.drop_first(), asset)
    }
}

/// What trade `t` moves in `asset`: its quantity in BTC, price times
/// quantity in USD.
pub open spec fn trade_value(t: Trade, asset: Asset) -> int {
    match asset {
        Asset::Btc => t.qty as int,
        Asset::Usd => t.price * t.qty,
    }
}

/// What `trades` move in `asset`, together.
pub open spec fn traded(trades: Seq<Trade>, asset: Asset) -> int
    decreases trades.len(),
{
    if trades.len() == 0 {
        0
    } else {
        traded(trades.drop_last(), asset) + trade_value(trades.last(), asset)
    }
}

/// What `trades` of `taker` refund to it, together.
pub open spec fn refunded(taker: Order, trades: Seq<Trade>) -> int
    decreases trades.len(),
{
    if trades.len() == 0 {
        0
    } else {
        refunded(taker, trades.drop_last()) + refund(taker, trades.last())
    }
}

/// Every account that owns an order of `q` is in `accounts`.
pub open spec fn covers_accounts(accounts: Seq<u64>, q: Seq<Order>) -> bool {
    forall|i: int| 0 <= i < q.len() ==> accounts.contains((#[trigger] q[i]).account_id)
}

proof fn lemma_reserved_concat(a: Seq<Order>, b: Seq<Order>, asset: Asset)
    ensures
        reserved_in(a + b, asset) == reserved_in(a, asset) + reserved_in(b, asset),
    decreases a.len(),
{
    if a.len() == 0 {
        assert(a + b =~= b);
    } else {
        assert((a + b).drop_first() =~= a.drop_first() + b);
        assert((a + b)[0] == a[0]);
        lemma_reserved_concat(a.drop_first(), b, asset);
    }
}

/// Joining `o` to a queue adds what `o` holds reserved.
proof fn lemma_reserved_rest(q: Seq<Order>, o: Order, asset: Asset)
    ensures
        reserved_in(rest_in(q, o), asset) == reserved_in(q, asset) + held_by(o, asset),
{
    lemma_rest_index_facts(q, o.side, o.price);
    let k = rest_index(q, o.side, o.price) as int;
    assert(rest_in(q, o) =~= q.take(k) + (seq![o] + q.skip(k)));
    assert(q =~= q.take(k) + q.skip(k));
    lemma_reserved_concat(q.take(k), seq![o] + q.skip(k), asset);
    lemma_reserved_concat(seq![o], q.skip(k), asset);
    lemma_reserved_concat(q.take(k), q.skip(k), asset);
    assert(seq![o].drop_first() =~= Seq::<Order>::empty());
    assert(reserved_in(seq![o].drop_first(), asset) == 0);
    assert(reserved_in(seq![o], asset) == held_by(o, asset));
}

/// A queue of one side holds nothing reserved in the other side's asset.
proof fn lemma_reserved_other(q: Seq<Order>, side: Side, asset: Asset)
    requires
        forall|i: int| 0 <= i < q.len() ==> (#[trigger] q[i]).side == side,
        reserved_asset(side) != asset,
    ensures
        reserved_in(q, asset) == 0,
    decreases q.len(),
{
    if q.len() > 0 {
        let q2 = q.drop_first();
        assert forall|i: int| 0 <= i < q2.len() implies (#[trigger] q2[i]).side == side by {
            assert(q2[i] == q[i + 1]);
        }
        lemma_reserved_other(q2, side, asset);
    }
}

proof fn lemma_traded_concat(a: Seq<Trade>, b: Seq<Trade>, asset: Asset)
    ensures
        traded(a + b, asset) == traded(a, asset) + traded(b, asset),
    decreases b.len(),
{
    if b.len() == 0 {
        assert(a + b =~= a);
    } else {
        assert((a + b).drop_last() =~= a + b.drop_last());
        assert((a + b).last() == b.last());
        lemma_traded_concat(a, b.drop_last(), asset);
    }
}

proof fn lemma_traded_one(t: Trade, asset: Asset)
    ensures
        traded(seq![t], asset) == trade_value(t, asset),
{
    assert(seq![t].drop_last() =~= Seq::<Trade>::empty());
    assert(traded(seq![t].drop_last(), asset) == 0);
}

/// Matching takes from the opposite side's reservations exactly what the
/// trades move, and the taker's quantity splits into what traded and what is
/// left.
proof fn lemma_match_moves(q: Seq<Order>, t: Order)
    requires
        queue_ok(q, opposite(t.side)),
    ensures
        traded(match_against(q, t).0, Asset::Btc) + match_against(q, t).2 == t.qty,
        t.side == Side::Buy ==> reserved_in(match_against(q, t).1, Asset::Btc) == reserved_in(q, Asset::Btc)
            - traded(match_against(q, t).0, Asset::Btc),
        t.side == Side::Sell ==> reserved_in(match_against(q, t).1, Asset::Usd) == reserved_in(q, Asset::Usd)
            - traded(match_against(q, t).0, Asset::Usd),
        t.side == Side::Buy ==> forall|k: int| 0 <= k < match_against(q, t).0.len()
            ==> (#[trigger] match_against(q, t).0[k]).price <= t.price,
    decreases q.len(),
{
    let m = match_against(q, t);
    if t.qty == 0 || q.len() == 0 || !crosses(t.side, t.price, q[0].price) {
        assert(m.0 =~= Seq::<Trade>::empty());
    } else {
        let maker = q[0];
        assert(maker.side == opposite(t.side));
        if maker.qty <= t.qty {
            let tr = Trade { maker_order_id: maker.id, taker_order_id: t.id, price: maker.price, qty: maker.qty };
            let t2 = with_qty(t, (t.qty - maker.qty) as u64);
            let q2 = q.drop_first();
            assert forall|i: int| 0 <= i < q2.len() implies (#[trigger] q2[i]).side == opposite(t2.side)
                && q2[i].qty > 0 by {
                assert(q2[i] == q[i + 1]);
            }
            assert forall|i: int, j: int| 0 <= i < j < q2.len() implies ranks_first(
                opposite(t2.side),
                (#[trigger] q2[i]).price,
                (#[trigger] q2[j]).price,
            ) by {
                assert(q2[i] == q[i + 1]);
                assert(q2[j] == q[j + 1]);
            }
            lemma_match_moves(q2, t2);
            let r = match_against(q2, t2);
            assert(m.0 == seq![tr] + r.0);
            assert forall|k: int| t.side == Side::Buy && 0 <= k < m.0.len() implies (#[trigger] m.0[k]).price <= t.price by {
                if k > 0 {
                    assert(m.0[k] == r.0[k - 1]);
                }
            }
            lemma_traded_concat(seq![tr], r.0, Asset::Btc);
            lemma_traded_concat(seq![tr], r.0, Asset::Usd);
            lemma_traded_one(tr, Asset::Btc);
            lemma_traded_one(tr, Asset::Usd);
        } else {
            let tr = Trade { maker_order_id: maker.id, taker_order_id: t.id, price: maker.price, qty: t.qty };
            let maker2 = with_qty(maker, (maker.qty - t.qty) as u64);
            assert(m.0 == seq![tr]);
            assert(m.1 == q.update(0, maker2));
            assert(m.1.drop_first() =~= q.drop_first());
            lemma_traded_one(tr, Asset::Btc);
            lemma_traded_one(tr, Asset::Usd);
            assert(maker.price * maker.qty - maker.price * (maker.qty - t.qty) == maker.price * t.qty)
                by (nonlinear_arith);
        }
    }
}

proof fn lemma_sum_linear(accounts: Seq<u64>, f: spec_fn(u64) -> int, g: spec_fn(u64) -> int, h: spec_fn(u64) -> int)
    requires
        forall|a: u64| #[trigger] f(a) == g(a) + h(a),
    ensures
        sum_over(accounts, f) == sum_over(accounts, g) + sum_over(accounts, h),
    decreases accounts.len(),
{
    if accounts.len() > 0 {
        lemma_sum_linear(accounts.drop_first(), f, g, h);
    }
}

proof fn lemma_sum_point(accounts: Seq<u64>, f: spec_fn(u64) -> int, x: u64, c: int)
    requires
        accounts.no_duplicates(),
        forall|a: u64| #[trigger] f(a) == if a == x { c } else { 0 },
    ensures
        sum_over(accounts, f) == if accounts.contains(x) { c } else { 0 },
    decreases accounts.len(),
{
    if accounts.len() > 0 {
        let rest = accounts.drop_first();
        assert(rest.no_duplicates());
        lemma_sum_point(rest, f, x, c);
        if accounts[0] == x {
            assert(!rest.contains(x)) by {
                if rest.contains(x) {
                    let i = choose|i: int| 0 <= i < rest.len() && rest[i] == x;
                    assert(accounts[i + 1] == accounts[0]);
                }
            }
        } else {
            assert(accounts.contains(x) == rest.contains(x)) by {
                if accounts.contains(x) {
                    let i = choose|i: int| 0 <= i < accounts.len() && accounts[i] == x;
                    assert(rest[i - 1] == x);
                }
                if rest.contains(x) {
                    let i = choose|i: int| 0 <= i < rest.len() && rest[i] == x;
                    assert(accounts[i + 1] == x);
                }
            }
        }
    } else {
        assert(!accounts.contains(x));
    }
}

/// Over accounts that include every party, settling `trades` credits in
/// total what they move, and in USD the refunds on top.
proof fn lemma_sum_credit(dir: Map<u128, u64>, order: Order, trades: Seq<Trade>, accounts: Seq<u64>, asset: Asset)
    requires
        accounts.no_duplicates(),
        accounts.contains(order.account_id),
        forall|k: int| 0 <= k < trades.len() ==> accounts.contains(dir[(#[trigger] trades[k]).maker_order_id]),
    ensures
        sum_over(accounts, |a: u64| settlement_credit(dir, order, trades, a, asset)) == traded(trades, asset)
            + if asset == Asset::Usd { refunded(order, trades) } else { 0 },
    decreases trades.len(),
{
    let f = |a: u64| settlement_credit(dir, order, trades, a, asset);
    if trades.len() == 0 {
        lemma_sum_point(accounts, f, 0, 0);
    } else {
        let front = trades.drop_last();
        let t = trades.last();
        let p = parties(order.side, order.account_id, dir[t.maker_order_id]);
        assert(accounts.contains(dir[trades[trades.len() - 1].maker_order_id]));
        assert forall|k: int| 0 <= k < front.len() implies accounts.contains(dir[(#[trigger] front[k]).maker_order_id]) by {
            assert(front[k] == trades[k]);
        }
        lemma_sum_credit(dir, order, front, accounts, asset);
        let g = |a: u64| settlement_credit(dir, order, front, a, asset);
        let h = |a: u64| trade_credit(order, dir[t.maker_order_id], t, a, asset);
        let h1 = |a: u64| if a == p.0 { if asset == Asset::Btc { t.qty as int } else { 0 } } else { 0 };
        let hx = |a: u64| (if a == p.1 { if asset == Asset::Usd { t.price * t.qty } else { 0 } } else { 0 })
            + (if a == order.account_id { if asset == Asset::Usd { refund(order, t) } else { 0 } } else { 0 });
        let h2 = |a: u64| if a == p.1 { if asset == Asset::Usd { t.price * t.qty } else { 0 } } else { 0 };
        let h3 = |a: u64| if a == order.account_id { if asset == Asset::Usd { refund(order, t) } else { 0 } } else { 0 };
        lemma_sum_linear(accounts, f, g, h);
        lemma_sum_linear(accounts, h, h1, hx);
        lemma_sum_linear(accounts, hx, h2, h3);
        lemma_sum_point(accounts, h1, p.0, if asset == Asset::Btc { t.qty as int } else { 0 });
        lemma_sum_point(accounts, h2, p.1, if asset == Asset::Usd { t.price * t.qty } else { 0 });
        lemma_sum_point(accounts, h3, order.account_id, if asset == Asset::Usd { refund(order, t) } else { 0 });
    }
}

/// A buy order pays, trades and refunds together, its own price for all it
/// bought; a sell order gets no refund.
proof fn lemma_refunds(order: Order, trades: Seq<Trade>)
    requires
        order.side == Side::Buy ==> forall|k: int| 0 <= k < trades.len() ==> (#[trigger] trades[k]).price <= order.price,
    ensures
        order.side == Side::Buy ==> traded(trades, Asset::Usd) + refunded(order, trades) == order.price * traded(
            trades,
            Asset::Btc,
        ),
        order.side == Side::Sell ==> refunded(order, trades) == 0,
    decreases trades.len(),
{
    if trades.len() > 0 {
        let front = trades.drop_last();
        assert forall|k: int| order.side == Side::Buy && 0 <= k < front.len() implies (#[trigger] front[k]).price <= order.price by {
            assert(front[k] == trades[k]);
        }
        lemma_refunds(order, front);
        let t = trades.last();
        let a = traded(front, Asset::Btc);
        let q = t.qty as int;
        if order.side == Side::Buy {
            assert(t.price <= order.price);
            let pr = order.price as int;
            let tp = t.price as int;
            assert(tp * q + (pr - tp) * q == pr * q) by (nonlinear_arith);
            assert(pr * a + pr * q == pr * (a + q)) by (nonlinear_arith);
        }
    }
}

/// A reservation takes from the balances of its asset exactly what it
/// reserves: over distinct accounts that include the order's account, their
/// balances in `asset` sum to the same as before, less the reserved amount
/// where the order was admitted in that asset.
pub proof fn lemma_reservation_sum(
    before: Ledger,
    after: Ledger,
    account: u64,
    side: Side,
    price: u64,
    qty: u64,
    r: bool,
    accounts: Seq<u64>,
    asset: Asset,
)
    requires
        reserved_from(before, after, account, side, price, qty, r),
        accounts.no_duplicates(),
        accounts.contains(account),
    ensures
        sum_over(accounts, |a: u64| after.balance(a, asset) as int) == sum_over(
            accounts,
            |a: u64| before.balance(a, asset) as int,
        ) - if r && asset == reserved_asset(side) {
            reserved_amount(side, price, qty)
        } else {
            0
        },
{
    let amount = if r && asset == reserved_asset(side) { reserved_amount(side, price, qty) } else { 0 };
    let f = |a: u64| after.balance(a, asset) as int;
    let g = |a: u64| before.balance(a, asset) as int;
    let h = |a: u64| if a == account { -amount } else { 0 };
    lemma_sum_linear(accounts, f, g, h);
    lemma_sum_point(accounts, h, account, -amount);
}

/// Settling a trade adds to the balances exactly what the trade moves: over
/// distinct accounts that include buyer and seller, their BTC balances sum to
/// `qty` more than before and their USD balances to `price * qty` more.
pub proof fn lemma_settlement_sum(
    before: Ledger,
    after: Ledger,
    buyer: u64,
    seller: u64,
    price: u64,
    qty: u64,
    accounts: Seq<u64>,
    asset: Asset,
)
    requires
        settled(before, after, buyer, seller, price, qty),
        accounts.no_duplicates(),
        accounts.contains(buyer),
        accounts.contains(seller),
    ensures
        sum_over(accounts, |a: u64| after.balance(a, asset) as int) == sum_over(
            accounts,
            |a: u64| before.balance(a, asset) as int,
        ) + if asset == Asset::Btc {
            qty as int
        } else {
            price * qty
        },
{
    let f = |a: u64| after.balance(a, asset) as int;
    let g = |a: u64| before.balance(a, asset) as int;
    let c1 = if asset == Asset::Btc { qty as int } else { 0 };
    let c2 = if asset == Asset::Usd { price * qty } else { 0 };
    let h = |a: u64| (if a == buyer { c1 } else { 0 }) + (if a == seller { c2 } else { 0 });
    let h1 = |a: u64| if a == buyer { c1 } else { 0 };
    let h2 = |a: u64| if a == seller { c2 } else { 0 };
    lemma_sum_linear(accounts, f, g, h);
    lemma_sum_linear(accounts, h, h1, h2);
    lemma_sum_point(accounts, h1, buyer, c1);
    lemma_sum_point(accounts, h2, seller, c2);
}

/// Conservation of funds. Take a list of distinct accounts that holds the
/// account of `order` and of every order resting in `book`. Placing `order`
/// (reserving for it, matching it, settling its trades and resting what is
/// left) leaves, in each asset, the sum of those accounts' balances plus what
/// resting orders hold reserved where it was.
pub proof fn lemma_conservation(l: Ledger, book: OrderBook, order: Order, accounts: Seq<u64>, asset: Asset)
    requires
        book.wf(),
        consistent(&l, &book),
        !book.holds(order.id),
        accounts.no_duplicates(),
        accounts.contains(order.account_id),
        covers_accounts(accounts, book.bids@),
        covers_accounts(accounts, book.asks@),
    ensures
        ({
            let trades = trades_for(book.bids@, book.asks@, order);
            let after = book_after(book.bids@, book.asks@, order);
            sum_over(accounts, |a: u64| balance_during(l, order, trades, trades.len() as int, a, asset))
                + reserved_in(after.0, asset) + reserved_in(after.1, asset)
                == sum_over(accounts, |a: u64| l.balance(a, asset) as int) + reserved_in(book.bids@, asset)
                + reserved_in(book.asks@, asset)
        }),
{
    let trades = trades_for(book.bids@, book.asks@, order);
    let n = trades.len() as int;
    let dir = l.directory();
    assert(trades.take(n) =~= trades);
    let q = if order.side == Side::Buy { book.asks@ } else { book.bids@ };
    lemma_match_keeps(q, order);
    lemma_match_moves(q, order);
    let m = match_against(q, order);
    assert(trades == m.0);
    assert forall|k: int| 0 <= k < trades.len() implies accounts.contains(dir[(#[trigger] trades[k]).maker_order_id]) by {
        let id = trades[k].maker_order_id;
        assert(has_id(q, id));
        let i = choose|i: int| 0 <= i < q.len() && (#[trigger] q[i]).id == id;
        assert(placed(q, id, q[i].account_id));
        assert(book.holds_for(id, q[i].account_id));
    }
    lemma_sum_credit(dir, order, trades, accounts, asset);
    lemma_refunds(order, trades);
    let f = |a: u64| balance_during(l, order, trades, n, a, asset);
    let g = |a: u64| l.balance(a, asset) as int;
    let h = |a: u64| settlement_credit(dir, order, trades, a, asset) - reservation(order, a, asset);
    let hc = |a: u64| settlement_credit(dir, order, trades, a, asset);
    let hr = |a: u64| -reservation(order, a, asset);
    lemma_sum_linear(accounts, f, g, h);
    lemma_sum_linear(accounts, h, hc, hr);
    lemma_sum_point(accounts, hr, order.account_id, -held_by(order, asset));
    let left = with_qty(order, m.2);
    if m.2 > 0 {
        if order.side == Side::Buy {
            lemma_reserved_rest(book.bids@, left, asset);
        } else {
            lemma_reserved_rest(book.asks@, left, asset);
        }
    }
    if order.side == Side::Buy {
        if asset == Asset::Usd {
            lemma_reserved_other(book.asks@, Side::Sell, Asset::Usd);
            lemma_reserved_other(m.1, Side::Sell, Asset::Usd);
            let tq = traded(trades, Asset::Btc);
            assert(order.price * order.qty == order.price * tq + order.price * m.2) by (nonlinear_arith)
                requires
                    tq + m.2 == order.qty,
            ;
        }
    } else {
        if asset == Asset::Btc {
            lemma_reserved_other(book.bids@, Side::Buy, Asset::Btc);
            lemma_reserved_other(m.1, Side::Buy, Asset::Btc);
        }
    }
}

/// Placing an order leaves every resting order's account among `accounts`
/// where it held that order's account and every account resting before.
proof fn lemma_covers_after(book: OrderBook, order: Order, accounts: Seq<u64>)
    requires
        book.wf(),
        !book.holds(order.id),
        accounts.contains(order.account_id),
        covers_accounts(accounts, book.bids@),
        covers_accounts(accounts, book.asks@),
    ensures
        covers_accounts(accounts, book_after(book.bids@, book.asks@, order).0),
        covers_accounts(accounts, book_after(book.bids@, book.asks@, order).1),
{
    let q = if order.side == Side::Buy { book.asks@ } else { book.bids@ };
    let own = if order.side == Side::Buy { book.bids@ } else { book.asks@ };
    lemma_match_keeps(q, order);
    let m = match_against(q, order);
    assert forall|i: int| 0 <= i < m.1.len() implies accounts.contains((#[trigger] m.1[i]).account_id) by {
        assert(placed(m.1, m.1[i].id, m.1[i].account_id));
        assert(placed(q, m.1[i].id, m.1[i].account_id));
        let j = choose|j: int| 0 <= j < q.len() && (#[trigger] q[j]).id == m.1[i].id && q[j].account_id == m.1[i].account_id;
        assert(accounts.contains(q[j].account_id));
    }
    if m.2 > 0 {
        let left = with_qty(order, m.2);
        lemma_rest_keeps(own, left);
        let r = rest_in(own, left);
        assert forall|i: int| 0 <= i < r.len() implies accounts.contains((#[trigger] r[i]).account_id) by {
            assert(placed(r, r[i].id, r[i].account_id));
            if placed(own, r[i].id, r[i].account_id) {
                let j = choose|j: int| 0 <= j < own.len() && (#[trigger] own[j]).id == r[i].id && own[j].account_id == r[i].account_id;
                assert(accounts.contains(own[j].account_id));
            }
        }
    }
}

/// What `accounts` hold in `asset` in `l`, plus what the orders resting in
/// `book` hold reserved in it.
pub open spec fn funds(l: Ledger, book: OrderBook, accounts: Seq<u64>, asset: Asset) -> int {
    sum_over(accounts, |a: u64| l.balance(a, asset) as int) + reserved_in(book.bids@, asset)
        + reserved_in(book.asks@, asset)
}

/// Conservation over a run of placements: each step from ledger and book
/// `ledgers[i]`, `books[i]` to the next places `orders[i]` as `place_order`
/// does on success. Where `accounts` are distinct and hold the account of
/// every order placed and every order resting at the start, the funds in each
/// asset are the same at the end as at the start.
pub proof fn lemma_conservation_run(
    ledgers: Seq<Ledger>,
    books: Seq<OrderBook>,
    orders: Seq<Order>,
    accounts: Seq<u64>,
    asset: Asset,
)
    requires
        ledgers.len() == orders.len() + 1,
        books.len() == orders.len() + 1,
        accounts.no_duplicates(),
        covers_accounts(accounts, books[0].bids@),
        covers_accounts(accounts, books[0].asks@),
        forall|i: int| 0 <= i < orders.len() ==> accounts.contains((#[trigger] orders[i]).account_id),
        forall|i: int| 0 <= i < orders.len() ==> (#[trigger] books[i]).wf() && consistent(&ledgers[i], &books[i])
            && !books[i].holds(orders[i].id),
        forall|i: int| 0 <= i < orders.len() ==> (#[trigger] books[i + 1].bids@, books[i + 1].asks@) == book_after(
            books[i].bids@,
            books[i].asks@,
            orders[i],
        ),
        forall|i: int, a: u64, s: Asset| 0 <= i < orders.len() ==> #[trigger] ledgers[i + 1].balance(a, s)
            == balance_during(
                ledgers[i],
                orders[i],
                trades_for(books[i].bids@, books[i].asks@, orders[i]),
                trades_for(books[i].bids@, books[i].asks@, orders[i]).len() as int,
                a,
                s,
            ),
    ensures
        funds(ledgers.last(), books.last(), accounts, asset) == funds(ledgers[0], books[0], accounts, asset),
    decreases orders.len(),
{
    if orders.len() > 0 {
        let k = orders.len() - 1;
        let ls = ledgers.drop_last();
        let bs = books.drop_last();
        let os = orders.drop_last();
        assert forall|i: int| 0 <= i < os.len() implies accounts.contains((#[trigger] os[i]).account_id) by {
            assert(os[i] == orders[i]);
        }
        assert forall|i: int| 0 <= i < os.len() implies (#[trigger] bs[i]).wf() && consistent(&ls[i], &bs[i])
            && !bs[i].holds(os[i].id) by {
            assert(os[i] == orders[i]);
        }
        assert forall|i: int| 0 <= i < os.len() implies (#[trigger] bs[i + 1].bids@, bs[i + 1].asks@) == book_after(
            bs[i].bids@,
            bs[i].asks@,
            os[i],
        ) by {
            assert(os[i] == orders[i]);
            assert(bs[i + 1] == books[i + 1]);
        }
        assert forall|i: int, a: u64, s: Asset| 0 <= i < os.len() implies #[trigger] ls[i + 1].balance(a, s)
            == balance_during(
                ls[i],
                os[i],
                trades_for(bs[i].bids@, bs[i].asks@, os[i]),
                trades_for(bs[i].bids@, bs[i].asks@, os[i]).len() as int,
                a,
                s,
            ) by {
            assert(os[i] == orders[i]);
            assert(ls[i + 1] == ledgers[i + 1]);
        }
        lemma_conservation_run(ls, bs, os, accounts, asset);
        lemma_covers_run(books, orders, accounts, k);
        let b = books[k];
        let o = orders[k];
        let l = ledgers[k];
        assert(accounts.contains(orders[k].account_id));
        assert(books[k].wf() && consistent(&ledgers[k], &books[k]) && !books[k].holds(orders[k].id));
        lemma_conservation(l, b, o, accounts, asset);
        let trades = trades_for(b.bids@, b.asks@, o);
        let f = |a: u64| ledgers[k + 1].balance(a, asset) as int;
        let g = |a: u64| balance_during(l, o, trades, trades.len() as int, a, asset);
        let z = |a: u64| 0int;
        assert forall|a: u64| #[trigger] f(a) == g(a) + z(a) by {
            assert(ledgers[k + 1].balance(a, asset) == balance_during(l, o, trades, trades.len() as int, a, asset));
        }
        lemma_sum_linear(accounts, f, g, z);
        lemma_sum_point(accounts, z, 0, 0);
        assert((books[k + 1].bids@, books[k + 1].asks@) == book_after(b.bids@, b.asks@, o));
    }
}

/// Along a run of placements, `accounts` keep covering the resting orders.
proof fn lemma_covers_run(books: Seq<OrderBook>, orders: Seq<Order>, accounts: Seq<u64>, k: int)
    requires
        0 <= k <= orders.len(),
        books.len() == orders.len() + 1,
        covers_accounts(accounts, books[0].bids@),
        covers_accounts(accounts, books[0].asks@),
        forall|i: int| 0 <= i < orders.len() ==> accounts.contains((#[trigger] orders[i]).account_id),
        forall|i: int| 0 <= i < orders.len() ==> (#[trigger] books[i]).wf() && !books[i].holds(orders[i].id),
        forall|i: int| 0 <= i < orders.len() ==> (#[trigger] books[i + 1].bids@, books[i + 1].asks@) == book_after(
            books[i].bids@,
            books[i].asks@,
            orders[i],
        ),
    ensures
        covers_accounts(accounts, books[k].bids@),
        covers_accounts(accounts, books[k].asks@),
    decreases k,
{
    if k > 0 {
        lemma_covers_run(books, orders, accounts, k - 1);
        assert(books[k - 1].wf() && !books[k - 1].holds(orders[k - 1].id));
        assert(accounts.contains(orders[k - 1].account_id));
        lemma_covers_after(books[k - 1], orders[k - 1], accounts);
        let j = k - 1;
        assert((books[j + 1].bids@, books[j + 1].asks@) == book_after(books[j].bids@, books[j].asks@, orders[j]));
        assert(books[j + 1] == books[k]);
    }
}

} // verus!
