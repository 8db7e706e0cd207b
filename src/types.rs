//! Value types shared by the book, the ledger and settlement.

use vstd::prelude::*;

verus! {

/// Which side of the book an order is on.
#[derive(Clone, Copy, Debug, PartialEq, Eq, Structural)]
pub enum Side {
    Buy,
    Sell,
}

/// The two assets of the traded pair: USD is the quote asset, BTC the base.
#[derive(Clone, Copy, Debug, PartialEq, Eq, Structural)]
pub enum Asset {
    Usd,
    Btc,
}

/// An order. `qty` is the quantity still open; `timestamp` is its creation
/// tick, kept for reporting (priority among equal prices is the position in
/// the queue).
#[derive(Clone, Copy, Debug, PartialEq, Eq, Structural)]
pub struct Order {
    pub id: u128,
    pub account_id: u64,
    pub side: Side,
    pub price: u64,
    pub qty: u64,
    pub timestamp: u64,
}

/// One match between a resting order (the maker) and an incoming one (the
/// taker), at the maker's price.
#[derive(Clone, Copy, Debug, PartialEq, Eq, Structural)]
pub struct Trade {
    pub maker_order_id: u128,
    pub taker_order_id: u128,
    pub price: u64,
    pub qty: u64,
}

pub open spec fn opposite(s: Side) -> Side {
    match s {
        Side::Buy => Side::Sell,
        Side::Sell => Side::Buy,
    }
}

/// The same order with `qty` open.
pub open spec fn with_qty(o: Order, qty: u64) -> Order {
    Order { qty, ..o }
}

/// Relies on `uuid::Uuid::new_v4` (a random version-4 identifier), read as an
/// integer with `Uuid::as_u128`.
#[verifier::external_body]
fn fresh_order_id() -> (r: u128) {
    uuid::Uuid::new_v4().as_u128()
}

impl Order {
    /// An order with the given fields under a fresh random identifier.
    pub fn new(account_id: u64, side: Side, price: u64, qty: u64, timestamp: u64) -> (r: Order)
        ensures
            r.account_id == account_id,
            r.side == side,
            r.price == price,
            r.qty == qty,
            r.timestamp == timestamp,
    {
        let id = fresh_order_id();
        Order { id, account_id, side, price, qty, timestamp }
    }

    /// The same order with `qty` open.
    pub fn with_qty(&self, qty: u64) -> (r: Order)
        ensures
            r == with_qty(*self, qty),
    {
        Order { qty, ..*self }
    }
}

} // verus!
