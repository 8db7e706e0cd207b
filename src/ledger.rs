//! Balances per (account, asset), the reservation gate, settlement credits,
//! and the directory from resting order identifiers to their accounts.
//!
//! Every operation takes the ledger by `&mut`: each read-modify-write of a
//! balance is one exclusive step, so two debits of one key never interleave.

use crate::store::{
    directory_entries, directory_get, directory_insert, directory_remove, entries, map_get, map_insert,
    new_directory, new_map,
};
use crate::types::{Asset, Order, Side};
use dashmap::DashMap;
use vstd::prelude::*;

verus! {

pub open spec fn asset_code(a: Asset) -> int {
    match a {
        Asset::Usd => 0,
        Asset::Btc => 1,
    }
}

/// The key under which the balance of `account` in `asset` is stored.
pub open spec fn balance_key(account: u64, asset: Asset) -> u128 {
    (account * 2 + asset_code(asset)) as u128
}

/// The asset that an order on side `s` reserves: the quote asset for a buy,
/// the base asset for a sell.
pub open spec fn reserved_asset(s: Side) -> Asset {
    match s {
        Side::Buy => Asset::Usd,
        Side::Sell => Asset::Btc,
    }
}

/// How much an order on side `s` reserves: `price * qty` for a buy, `qty`
/// for a sell.
pub open spec fn reserved_amount(s: Side, price: u64, qty: u64) -> int {
    match s {
        Side::Buy => price * qty,
        Side::Sell => qty as int,
    }
}

fn key_of(account: u64, asset: Asset) -> (r: u128)
    ensures
        r == balance_key(account, asset),
{
    let code: u128 = match asset {
        Asset::Usd => 0,
        Asset::Btc => 1,
    };
    account as u128 * 2 + code
}

/// `after` is `before` with one debit of `amount` from `account` in `asset`
/// applied, and `r` tells whether it succeeded: it succeeds exactly when the
/// balance covers the amount, and a failed one changes nothing.
pub open spec fn debited(before: Ledger, after: Ledger, account: u64, asset: Asset, amount: u64, r: bool) -> bool {
    &&& r == (amount <= before.balance(account, asset))
    &&& forall|a: u64, s: Asset| #[trigger]
        after.balance(a, s) == if r && a == account && s == asset {
            before.balance(a, s) - amount
        } else {
            before.balance(a, s) as int
        }
    &&& after.directory() == before.directory()
    &&& !r ==> after == before
}

/// `after` is `before` with `amount` added to the balance of `account` in
/// `asset`, and nothing else changed.
pub open spec fn credited(before: Ledger, after: Ledger, account: u64, asset: Asset, amount: u64) -> bool {
    &&& forall|a: u64, s: Asset| #[trigger]
        after.balance(a, s) == if a == account && s == asset {
            before.balance(a, s) + amount
        } else {
            before.balance(a, s) as int
        }
    &&& after.directory() == before.directory()
}

/// `after` is `before` with an order of `account` on side `side` at `price`
/// for `qty` put through the reservation gate, `r` telling whether it was
/// admitted: it is exactly when price and quantity are positive and the
/// balance covers the reservation, which is then taken; a refusal changes
/// nothing.
pub open spec fn reserved_from(
    before: Ledger,
    after: Ledger,
    account: u64,
    side: Side,
    price: u64,
    qty: u64,
    r: bool,
) -> bool {
    &&& r == (price > 0 && qty > 0 && reserved_amount(side, price, qty) <= before.balance(
        account,
        reserved_asset(side),
    ))
    &&& forall|a: u64, s: Asset| #[trigger]
        after.balance(a, s) == if r && a == account && s == reserved_asset(side) {
            before.balance(a, s) - reserved_amount(side, price, qty)
        } else {
            before.balance(a, s) as int
        }
    &&& after.directory() == before.directory()
    &&& !r ==> after == before
}

/// `after` is `before` with a trade settled: the buyer gets `qty` BTC, the
/// seller `price * qty` USD, and nothing else changes.
pub open spec fn settled(before: Ledger, after: Ledger, buyer: u64, seller: u64, price: u64, qty: u64) -> bool {
    &&& forall|a: u64, s: Asset| #[trigger]
        after.balance(a, s) == before.balance(a, s) + (if a == buyer && s == Asset::Btc {
            qty as int
        } else {
            0
        }) + (if a == seller && s == Asset::Usd {
            price * qty
        } else {
            0
        })
    &&& after.directory() == before.directory()
}

/// The net change that a run of operations on one balance makes: each
/// operation is `(true, n)` for a debit of `n` and `(false, n)` for a credit;
/// a debit counts only where it succeeded.
pub open spec fn net_change(ops: Seq<(bool, u64)>, results: Seq<bool>) -> int
    decreases ops.len(),
{
    if ops.len() == 0 {
        0
    } else {
        let k = ops.len() - 1;
        net_change(ops.drop_last(), results.take(k)) + if ops[k].0 {
            if results[k] {
                -(ops[k].1 as int)
            } else {
                0
            }
        } else {
            ops[k].1 as int
        }
    }
}

/// Debits and credits applied in turn to one balance, as calls on one ledger
/// are: each debit succeeds exactly when the balance it meets covers it, and
/// the balance ends as it began plus the credits minus the debits that
/// succeeded.
pub proof fn lemma_debit_credit_run(
    ledgers: Seq<Ledger>,
    ops: Seq<(bool, u64)>,
    results: Seq<bool>,
    account: u64,
    asset: Asset,
)
    requires
        ledgers.len() == ops.len() + 1,
        results.len() == ops.len(),
        forall|i: int| 0 <= i < ops.len() && (#[trigger] ops[i]).0 ==> debited(ledgers[i], ledgers[i + 1], account, asset, ops[i].1, results[i]),
        forall|i: int| 0 <= i < ops.len() && !(#[trigger] ops[i]).0 ==> credited(ledgers[i], ledgers[i + 1], account, asset, ops[i].1),
    ensures
        forall|i: int| 0 <= i < ops.len() && (#[trigger] ops[i]).0 ==> results[i] == (ops[i].1 <= ledgers[i].balance(account, asset)),
        ledgers.last().balance(account, asset) == ledgers[0].balance(account, asset) + net_change(ops, results),
    decreases ops.len(),
{
    if ops.len() > 0 {
        let k = ops.len() - 1;
        lemma_debit_credit_run(ledgers.drop_last(), ops.drop_last(), results.take(k), account, asset);
        assert(results.take(k) =~= results.drop_last());
        if ops[k].0 {
            assert(debited(ledgers[k], ledgers[k + 1], account, asset, ops[k].1, results[k]));
        } else {
            assert(credited(ledgers[k], ledgers[k + 1], account, asset, ops[k].1));
        }
        assert forall|i: int| 0 <= i < ops.len() && (#[trigger] ops[i]).0 implies results[i] == (ops[i].1 <= ledgers[i].balance(account, asset)) by {
            assert(debited(ledgers[i], ledgers[i + 1], account, asset, ops[i].1, results[i]));
        }
    }
}

/// Debits of one unit each, applied in turn to a balance of one unit: the
/// first succeeds and every later one fails, so the unit is spent once.
pub proof fn lemma_no_double_spend(ledgers: Seq<Ledger>, results: Seq<bool>, account: u64, asset: Asset)
    requires
        ledgers.len() == results.len() + 1,
        ledgers[0].balance(account, asset) == 1,
        forall|i: int| 0 <= i < results.len() ==> debited(#[trigger] ledgers[i], ledgers[i + 1], account, asset, 1, results[i]),
    ensures
        results.len() > 0 ==> results[0],
        forall|i: int| 1 <= i < results.len() ==> !#[trigger] results[i],
{
    if results.len() > 0 {
        assert(debited(ledgers[0], ledgers[1], account, asset, 1, results[0]));
    }
    assert forall|i: int| 1 <= i < results.len() implies !#[trigger] results[i] by {
        lemma_stays_empty(ledgers, results, account, asset, i);
        assert(debited(ledgers[i], ledgers[i + 1], account, asset, 1, results[i]));
    }
}

proof fn lemma_stays_empty(ledgers: Seq<Ledger>, results: Seq<bool>, account: u64, asset: Asset, k: int)
    requires
        1 <= k < ledgers.len(),
        ledgers.len() == results.len() + 1,
        ledgers[0].balance(account, asset) == 1,
        forall|i: int| 0 <= i < results.len() ==> debited(#[trigger] ledgers[i], ledgers[i + 1], account, asset, 1, results[i]),
    ensures
        ledgers[k].balance(account, asset) == 0,
    decreases k,
{
    assert(debited(ledgers[k - 1], ledgers[k], account, asset, 1, results[k - 1]));
    if k > 1 {
        lemma_stays_empty(ledgers, results, account, asset, k - 1);
    }
}

pub struct Ledger {
    /// Balance per `balance_key`; an absent key reads as zero.
    balances: DashMap<u128, u64>,
    /// Account of each order admitted and not yet fully filled, and whether
    /// it buys, by order id.
    open_orders: DashMap<u128, (u64, bool)>,
}

impl Ledger {
    /// The balance of `account` in `asset`; zero where none was recorded.
    pub closed spec fn balance(&self, account: u64, asset: Asset) -> u64 {
        let m = entries(self.balances);
        let k = balance_key(account, asset);
        if m.contains_key(k) {
            m[k]
        } else {
            0
        }
    }

    /// The order directory: order id to account id and whether it buys.
    pub closed spec fn entries_of_orders(&self) -> Map<u128, (u64, bool)> {
        directory_entries(self.open_orders)
    }

    /// The order directory's accounts: order id to account id.
    pub open spec fn directory(&self) -> Map<u128, u64> {
        self.entries_of_orders().map_values(|e: (u64, bool)| e.0)
    }

    pub fn new() -> (r: Ledger)
        ensures
            forall|a: u64, s: Asset| #[trigger] r.balance(a, s) == 0,
            r.directory() =~= Map::<u128, u64>::empty(),
    {
        let r = Ledger { balances: new_map(), open_orders: new_directory() };
        proof {
            assert(r.directory() =~= Map::<u128, u64>::empty());
        }
        r
    }

    /// Adds `amount` to the balance of `account` in `asset`.
    pub fn credit(&mut self, account: u64, asset: Asset, amount: u64)
        requires
            old(self).balance(account, asset) + amount <= u64::MAX,
        ensures
            credited(*old(self), *final(self), account, asset, amount),
    {
        let k = key_of(account, asset);
        let cur = self.get_balance(account, asset);
        map_insert(&mut self.balances, k, cur + amount);
    }

    /// Takes `amount` from the balance of `account` in `asset` if it holds at
    /// least that much; otherwise changes nothing. Returns whether it did.
    pub fn debit(&mut self, account: u64, asset: Asset, amount: u64) -> (r: bool)
        ensures
            debited(*old(self), *final(self), account, asset, amount, r),
    {
        let k = key_of(account, asset);
        let cur = self.get_balance(account, asset);
        if cur >= amount {
            map_insert(&mut self.balances, k, cur - amount);
            true
        } else {
            false
        }
    }

    /// The reservation gate: a buy reserves `price * qty` USD, a sell `qty`
    /// BTC. Returns false, changing nothing, for a zero price or quantity and
    /// where the balance falls short.
    pub fn try_place_order(&mut self, account: u64, side: Side, price: u64, qty: u64) -> (r: bool)
        ensures
            price == 0 || qty == 0 ==> !r && *final(self) == *old(self),
            reserved_from(*old(self), *final(self), account, side, price, qty, r),
    {
        if price == 0 || qty == 0 {
            return false;
        }
        match side {
            Side::Buy => {
                match price.checked_mul(qty) {
                    Some(needed) => self.debit(account, Asset::Usd, needed),
                    None => false,
                }
            },
            Side::Sell => self.debit(account, Asset::Btc, qty),
        }
    }

    /// Credits the buyer `qty` BTC and the seller `price * qty` USD.
    pub fn settle_trade(&mut self, buyer: u64, seller: u64, price: u64, qty: u64)
        requires
            old(self).balance(buyer, Asset::Btc) + qty <= u64::MAX,
            old(self).balance(seller, Asset::Usd) + price * qty <= u64::MAX,
        ensures
            settled(*old(self), *final(self), buyer, seller, price, qty),
    {
        self.credit(buyer, Asset::Btc, qty);
        proof {
            assert(0 <= price * qty);
        }
        let usd = price * qty;
        self.credit(seller, Asset::Usd, usd);
    }

    /// The balance of `account` in `asset`; zero where none was recorded.
    pub fn get_balance(&self, account: u64, asset: Asset) -> (r: u64)
        ensures
            r == self.balance(account, asset),
    {
        match map_get(&self.balances, key_of(account, asset)) {
            Some(v) => v,
            None => 0,
        }
    }

    /// Records the account and side of an admitted order.
    pub fn register_order(&mut self, order: &Order)
        ensures
            final(self).entries_of_orders() == old(self).entries_of_orders().insert(
                order.id,
                (order.account_id, order.side == Side::Buy),
            ),
            final(self).directory() == old(self).directory().insert(order.id, order.account_id),
            forall|a: u64, s: Asset| #[trigger] final(self).balance(a, s) == old(self).balance(a, s),
    {
        let buys = match order.side {
            Side::Buy => true,
            Side::Sell => false,
        };
        directory_insert(&mut self.open_orders, order.id, (order.account_id, buys));
        proof {
            assert(self.directory() =~= old(self).directory().insert(order.id, order.account_id));
        }
    }

    /// Forgets an order that has left the book.
    pub fn deregister_order(&mut self, id: u128)
        ensures
            final(self).entries_of_orders() == old(self).entries_of_orders().remove(id),
            final(self).directory() == old(self).directory().remove(id),
            forall|a: u64, s: Asset| #[trigger] final(self).balance(a, s) == old(self).balance(a, s),
    {
        directory_remove(&mut self.open_orders, id);
        proof {
            assert(self.directory() =~= old(self).directory().remove(id));
        }
    }

    /// The account and side of order `id`, if the directory holds it.
    pub fn order_entry(&self, id: u128) -> (r: Option<(u64, Side)>)
        ensures
            r == (if self.entries_of_orders().contains_key(id) {
                Some(
                    (
                        self.entries_of_orders()[id].0,
                        if self.entries_of_orders()[id].1 {
                            Side::Buy
                        } else {
                            Side::Sell
                        },
                    ),
                )
            } else {
                None::<(u64, Side)>
            }),
    {
        match directory_get(&self.open_orders, id) {
            Some((account, true)) => Some((account, Side::Buy)),
            Some((account, false)) => Some((account, Side::Sell)),
            None => None,
        }
    }

    /// The account of order `id`, if the directory holds it.
    pub fn order_account(&self, id: u128) -> (r: Option<u64>)
        ensures
            r == (if self.directory().contains_key(id) {
                Some(self.directory()[id])
            } else {
                None::<u64>
            }),
    {
        match directory_get(&self.open_orders, id) {
            Some(e) => Some(e.0),
            None => None,
        }
    }
}

} // verus!
