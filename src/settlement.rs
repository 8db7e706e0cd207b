//! Settlement: admission of an order (validation, reservation, directory
//! entry), matching, and the credits that each trade owes its buyer and its
//! seller, plus the refund a buy taker is owed where it traded below its
//! price, with makers resolved to accounts through the ledger's directory.

use crate::ledger::{reserved_amount, reserved_asset, Ledger};
use crate::order_book::{book_after, has_id, placed, trades_for, OrderBook};
use crate::types::{Asset, Order, Side, Trade};
use vstd::prelude::*;

verus! {

#[derive(Clone, Copy, Debug, PartialEq, Eq, Structural)]
pub enum PlaceError {
    /// Price or quantity is zero.
    InvalidOrder,
    /// An order with this identifier is already admitted.
    DuplicateId,
    /// The balance cannot cover the reservation.
    InsufficientFunds,
    /// A trade names a maker that the directory does not hold.
    UnknownOrder,
    /// A settlement credit would take a balance past `u64::MAX`.
    BalanceOverflow,
}

/// Every resting order is in the directory, under its own account.
pub open spec fn consistent(ledger: &Ledger, book: &OrderBook) -> bool {
    forall|id: u128, a: u64| #[trigger] book.holds_for(id, a) ==> ledger.directory().contains_key(id)
        && ledger.directory()[id] == a
}

/// Buyer and seller of a trade whose taker, of account `taker_account`, is on
/// side `taker_side`, and whose maker is of account `maker_account`.
pub open spec fn parties(taker_side: Side, taker_account: u64, maker_account: u64) -> (u64, u64) {
    match taker_side {
        Side::Buy => (taker_account, maker_account),
        Side::Sell => (maker_account, taker_account),
    }
}

/// What a buy taker gets back on trade `t`: it reserved at its own price and
/// pays the maker's, so the difference returns to it.
pub open spec fn refund(taker: Order, t: Trade) -> int {
    if taker.side == Side::Buy && t.price < taker.price {
        (taker.price - t.price) * t.qty
    } else {
        0
    }
}

/// What settling trade `t` of `taker`, against a maker of account
/// `maker_account`, credits to `account` in `asset`: the buyer gets the
/// quantity in BTC, the seller price times quantity in USD, and a buy taker
/// its refund in USD.
pub open spec fn trade_credit(taker: Order, maker_account: u64, t: Trade, account: u64, asset: Asset) -> int {
    let p = parties(taker.side, taker.account_id, maker_account);
    (if account == p.0 && asset == Asset::Btc {
        t.qty as int
    } else {
        0
    }) + (if account == p.1 && asset == Asset::Usd {
        t.price * t.qty
    } else {
        0
    }) + (if account == taker.account_id && asset == Asset::Usd {
        refund(taker, t)
    } else {
        0
    })
}

/// What settling `trades` of `taker` credits to `account` in `asset`, makers
/// resolved through `dir`.
pub open spec fn settlement_credit(
    dir: Map<u128, u64>,
    taker: Order,
    trades: Seq<Trade>,
    account: u64,
    asset: Asset,
) -> int
    decreases trades.len(),
{
    if trades.len() == 0 {
        0
    } else {
        let t = trades.last();
        settlement_credit(dir, taker, trades.drop_last(), account, asset) + trade_credit(
            taker,
            dir[t.maker_order_id],
            t,
            account,
            asset,
        )
    }
}

/// What admitting `o` reserves from `account` in `asset`.
pub open spec fn reservation(o: Order, account: u64, asset: Asset) -> int {
    if account == o.account_id && asset == reserved_asset(o.side) {
        reserved_amount(o.side, o.price, o.qty)
    } else {
        0
    }
}

/// The balance of `account` in `asset` once `o` is admitted from `l` and the
/// first `k` of its trades are settled.
pub open spec fn balance_during(
    l: Ledger,
    o: Order,
    trades: Seq<Trade>,
    k: int,
    account: u64,
    asset: Asset,
) -> int {
    l.balance(account, asset) - reservation(o, account, asset) + settlement_credit(
        l.directory(),
        o,
        trades.take(k),
        account,
        asset,
    )
}

/// Whether the credits of trade `t` of `taker` fit when balances are `bal`:
/// the buyer's BTC, then the seller's USD, then the taker's refund on top.
pub open spec fn fits_with(bal: spec_fn(u64, Asset) -> int, taker: Order, maker_account: u64, t: Trade) -> bool {
    let p = parties(taker.side, taker.account_id, maker_account);
    &&& bal(p.0, Asset::Btc) + t.qty <= u64::MAX
    &&& bal(p.1, Asset::Usd) + t.price * t.qty <= u64::MAX
    &&& bal(taker.account_id, Asset::Usd) + (if taker.account_id == p.1 {
        t.price * t.qty
    } else {
        0
    }) + refund(taker, t) <= u64::MAX
}

/// Whether the credits of trade `t` of `taker` fit in the balances of `l`.
pub open spec fn credit_fits(l: Ledger, taker: Order, maker_account: u64, t: Trade) -> bool {
    fits_with(|a: u64, s: Asset| l.balance(a, s) as int, taker, maker_account, t)
}

/// Whether the credits of trade `k` of `o` fit, after the ones before it.
pub open spec fn fits_at(l: Ledger, o: Order, trades: Seq<Trade>, k: int) -> bool {
    fits_with(
        |a: u64, s: Asset| balance_during(l, o, trades, k, a, s),
        o,
        l.directory()[trades[k].maker_order_id],
        trades[k],
    )
}

/// Whether the credits of every trade of `o` fit.
pub open spec fn all_fit(l: Ledger, o: Order, trades: Seq<Trade>) -> bool {
    forall|k: int| 0 <= k < trades.len() ==> fits_at(l, o, trades, k)
}

proof fn lemma_held_is_registered(ledger: &Ledger, book: &OrderBook, id: u128)
    requires
        consistent(ledger, book),
        book.holds(id),
    ensures
        ledger.directory().contains_key(id),
{
    if has_id(book.bids@, id) {
        let i = choose|i: int| 0 <= i < book.bids@.len() && (#[trigger] book.bids@[i]).id == id;
        assert(placed(book.bids@, id, book.bids@[i].account_id));
        assert(book.holds_for(id, book.bids@[i].account_id));
    } else {
        let i = choose|i: int| 0 <= i < book.asks@.len() && (#[trigger] book.asks@[i]).id == id;
        assert(placed(book.asks@, id, book.asks@[i].account_id));
        assert(book.holds_for(id, book.asks@[i].account_id));
    }
}

proof fn lemma_placed_is_held(book: &OrderBook, id: u128, a: u64)
    requires
        book.holds_for(id, a),
    ensures
        book.holds(id),
{
    if placed(book.bids@, id, a) {
        let i = choose|i: int| 0 <= i < book.bids@.len() && (#[trigger] book.bids@[i]).id == id
            && book.bids@[i].account_id == a;
        assert(book.bids@[i].id == id);
    } else {
        let i = choose|i: int| 0 <= i < book.asks@.len() && (#[trigger] book.asks@[i]).id == id
            && book.asks@[i].account_id == a;
        assert(book.asks@[i].id == id);
    }
}

/// Settles one trade of `taker`: resolves the maker's account through the
/// directory, credits the buyer and the seller, and refunds a buy taker the
/// difference between its price and the trade's. Changes nothing where the
/// maker is unknown or a credit would not fit.
pub fn settle_fill(ledger: &mut Ledger, taker: &Order, trade: &Trade) -> (r: Result<(), PlaceError>)
    ensures
        final(ledger).directory() == old(ledger).directory(),
        !old(ledger).directory().contains_key(trade.maker_order_id) ==> r == Err::<(), PlaceError>(PlaceError::UnknownOrder),
        old(ledger).directory().contains_key(trade.maker_order_id) ==> r == (if credit_fits(
            *old(ledger),
            *taker,
            old(ledger).directory()[trade.maker_order_id],
            *trade,
        ) {
            Ok::<(), PlaceError>(())
        } else {
            Err(PlaceError::BalanceOverflow)
        }),
        forall|a: u64, s: Asset| #[trigger]
            final(ledger).balance(a, s) == old(ledger).balance(a, s) + if r is Ok {
                trade_credit(*taker, old(ledger).directory()[trade.maker_order_id], *trade, a, s)
            } else {
                0
            },
{
    let maker_account = match ledger.order_account(trade.maker_order_id) {
        Some(acc) => acc,
        None => {
            return Err(PlaceError::UnknownOrder);
        },
    };
    let (buyer, seller) = match taker.side {
        Side::Buy => (taker.account_id, maker_account),
        Side::Sell => (maker_account, taker.account_id),
    };
    let btc = ledger.get_balance(buyer, Asset::Btc);
    let usd = ledger.get_balance(seller, Asset::Usd);
    if trade.qty > u64::MAX - btc {
        return Err(PlaceError::BalanceOverflow);
    }
    let amount = match trade.price.checked_mul(trade.qty) {
        Some(amount) => amount,
        None => {
            return Err(PlaceError::BalanceOverflow);
        },
    };
    if amount > u64::MAX - usd {
        return Err(PlaceError::BalanceOverflow);
    }
    let back: u64 = if taker.side == Side::Buy && trade.price < taker.price {
        match (taker.price - trade.price).checked_mul(trade.qty) {
            Some(b) => b,
            None => {
                return Err(PlaceError::BalanceOverflow);
            },
        }
    } else {
        0
    };
    let own = ledger.get_balance(taker.account_id, Asset::Usd);
    let own_after = if taker.account_id == seller {
        own + amount
    } else {
        own
    };
    if back > u64::MAX - own_after {
        return Err(PlaceError::BalanceOverflow);
    }
    ledger.settle_trade(buyer, seller, trade.price, trade.qty);
    ledger.credit(taker.account_id, Asset::Usd, back);
    Ok(())
}

/// Places `order`: rejects a zero price or quantity, an identifier already
/// admitted, and a reservation the balance cannot cover, each without any
/// change. Otherwise it reserves the funds, enters the order in the directory,
/// inserts it into the book, settles each trade in turn, and forgets every
/// order that the trades took off the book. Returns the trades.
#[verifier::rlimit(50)]
pub fn place_order(ledger: &mut Ledger, book: &mut OrderBook, order: Order) -> (r: Result<Vec<Trade>, PlaceError>)
    requires
        old(book).wf(),
        consistent(old(ledger), old(book)),
    ensures
        final(book).wf(),
        consistent(final(ledger), final(book)),
        order.price == 0 || order.qty == 0 ==> r == Err::<Vec<Trade>, PlaceError>(PlaceError::InvalidOrder),
        order.price > 0 && order.qty > 0 && (old(book).holds(order.id) || old(ledger).directory().contains_key(order.id))
            ==> r == Err::<Vec<Trade>, PlaceError>(PlaceError::DuplicateId),
        order.price > 0 && order.qty > 0 && !old(book).holds(order.id) && !old(ledger).directory().contains_key(order.id)
            && reserved_amount(order.side, order.price, order.qty) > old(ledger).balance(order.account_id, reserved_asset(order.side))
            ==> r == Err::<Vec<Trade>, PlaceError>(PlaceError::InsufficientFunds),
        r matches Err(e) && (e == PlaceError::InvalidOrder || e == PlaceError::DuplicateId || e == PlaceError::InsufficientFunds)
            ==> *final(ledger) == *old(ledger) && *final(book) == *old(book),
        ({
            let trades = trades_for(old(book).bids@, old(book).asks@, order);
            order.price > 0 && order.qty > 0 && !old(book).holds(order.id) && !old(ledger).directory().contains_key(order.id)
                && reserved_amount(order.side, order.price, order.qty) <= old(ledger).balance(order.account_id, reserved_asset(order.side))
                ==> {
                    &&& (final(book).bids@, final(book).asks@) == book_after(old(book).bids@, old(book).asks@, order)
                    &&& r == if all_fit(*old(ledger), order, trades) {
                        Ok::<Vec<Trade>, PlaceError>(r->Ok_0)
                    } else {
                        Err(PlaceError::BalanceOverflow)
                    }
                    &&& r is Ok ==> r->Ok_0@ == trades
                    &&& r is Ok ==> forall|a: u64, s: Asset| #[trigger] final(ledger).balance(a, s)
                        == balance_during(*old(ledger), order, trades, trades.len() as int, a, s)
                    &&& r is Err ==> exists|k: int| 0 <= k < trades.len()
                        && (forall|j: int| 0 <= j < k ==> fits_at(*old(ledger), order, trades, j))
                        && !fits_at(*old(ledger), order, trades, k)
                        && forall|a: u64, s: Asset| #[trigger] final(ledger).balance(a, s)
                            == balance_during(*old(ledger), order, trades, k, a, s)
                    &&& forall|id: u128| #[trigger] final(ledger).directory().contains_key(id)
                        ==> old(ledger).directory().contains_key(id) || id == order.id
                    &&& r is Ok ==> forall|k: int| 0 <= k < trades.len() && !final(book).holds(#[trigger] trades[k].maker_order_id)
                        ==> !final(ledger).directory().contains_key(trades[k].maker_order_id)
                    &&& !final(book).holds(order.id) ==> !final(ledger).directory().contains_key(order.id)
                }
        }),
{
    if order.price == 0 || order.qty == 0 {
        return Err(PlaceError::InvalidOrder);
    }
    if book.contains_order(order.id) || ledger.order_account(order.id).is_some() {
        return Err(PlaceError::DuplicateId);
    }
    if !ledger.try_place_order(order.account_id, order.side, order.price, order.qty) {
        return Err(PlaceError::InsufficientFunds);
    }
    let ghost l0 = *old(ledger);
    let ghost b0 = *old(book);
    ledger.register_order(&order);
    let ghost dir1 = ledger.directory();
    let trades = book.insert_order(order);
    let ghost ts = trades@;
    proof {
        assert(ts.take(0) =~= Seq::<Trade>::empty());
        assert forall|id: u128, a: u64| #[trigger] book.holds_for(id, a) implies ledger.directory().contains_key(id)
            && ledger.directory()[id] == a by {
            if b0.holds_for(id, a) {
                lemma_placed_is_held(&b0, id, a);
            }
        }
    }
    let mut i: usize = 0;
    let mut failed = false;
    while i < trades.len() && !failed
        invariant
            i <= trades@.len(),
            trades@ == ts,
            ts == trades_for(b0.bids@, b0.asks@, order),
            forall|k: int| 0 <= k < ts.len() ==> b0.holds((#[trigger] ts[k]).maker_order_id),
            consistent(&l0, &b0),
            !b0.holds(order.id),
            ledger.directory() == dir1,
            dir1 == l0.directory().insert(order.id, order.account_id),
            forall|a: u64, s: Asset| #[trigger] ledger.balance(a, s) == balance_during(l0, order, ts, i as int, a, s),
            forall|k: int| 0 <= k < i ==> fits_at(l0, order, ts, k),
            failed ==> i < ts.len() && !fits_at(l0, order, ts, i as int),
        decreases ts.len() - i + if failed { 0int } else { 1int },
    {
        let t = trades[i];
        proof {
            lemma_held_is_registered(&l0, &b0, t.maker_order_id);
            assert(t.maker_order_id != order.id);
            assert(ts.take(i + 1).drop_last() =~= ts.take(i as int));
            assert(ts.take(i + 1).last() == t);
        }
        match settle_fill(ledger, &order, &t) {
            Ok(()) => {
                i = i + 1;
            },
            Err(_) => {
                failed = true;
            },
        }
    }
    let ghost settled = *ledger;
    let mut j: usize = 0;
    while j < trades.len()
        invariant
            j <= trades@.len(),
            trades@ == ts,
            consistent(ledger, book),
            forall|a: u64, s: Asset| #[trigger] ledger.balance(a, s) == settled.balance(a, s),
            forall|id: u128| #[trigger] ledger.directory().contains_key(id)
                ==> l0.directory().contains_key(id) || id == order.id,
            forall|k: int| 0 <= k < j && !book.holds(#[trigger] ts[k].maker_order_id)
                ==> !ledger.directory().contains_key(ts[k].maker_order_id),
        decreases ts.len() - j,
    {
        let m = trades[j].maker_order_id;
        if !book.contains_order(m) {
            ledger.deregister_order(m);
            proof {
                assert forall|id: u128, a: u64| #[trigger] book.holds_for(id, a) implies ledger.directory().contains_key(id)
                    && ledger.directory()[id] == a by {
                    lemma_placed_is_held(book, id, a);
                }
            }
        }
        j = j + 1;
    }
    if !book.contains_order(order.id) {
        ledger.deregister_order(order.id);
        proof {
            assert forall|id: u128, a: u64| #[trigger] book.holds_for(id, a) implies ledger.directory().contains_key(id)
                && ledger.directory()[id] == a by {
                lemma_placed_is_held(book, id, a);
            }
        }
    }
    if failed {
        proof {
            assert(forall|a: u64, s: Asset| #[trigger] ledger.balance(a, s) == balance_during(l0, order, ts, i as int, a, s));
        }
        Err(PlaceError::BalanceOverflow)
    } else {
        proof {
            assert(ts.take(ts.len() as int) =~= ts);
        }
        Ok(trades)
    }
}

} // verus!
