use toy_cex::ledger::Ledger;
use toy_cex::order_book::OrderBook;
use toy_cex::settlement::{place_order, settle_fill, PlaceError};
use toy_cex::types::{Asset, Order, Side, Trade};

fn order(id: u128, account_id: u64, side: Side, price: u64, qty: u64) -> Order {
    Order { id, account_id, side, price, qty, timestamp: id as u64 }
}

#[test]
fn price_time_priority() {
    let mut book = OrderBook::new();
    assert!(book.insert_order(order(1, 7, Side::Sell, 100, 5)).is_empty());
    assert!(book.insert_order(order(2, 8, Side::Sell, 100, 5)).is_empty());
    let trades = book.insert_order(order(3, 9, Side::Buy, 100, 5));
    assert_eq!(
        trades,
        vec![Trade { maker_order_id: 1, taker_order_id: 3, price: 100, qty: 5 }]
    );
    assert_eq!(book.asks, vec![order(2, 8, Side::Sell, 100, 5)]);
    assert!(book.bids.is_empty());
}

#[test]
fn partial_fill() {
    let mut book = OrderBook::new();
    book.insert_order(order(1, 7, Side::Sell, 100, 5));
    let trades = book.insert_order(order(2, 9, Side::Buy, 100, 3));
    assert_eq!(
        trades,
        vec![Trade { maker_order_id: 1, taker_order_id: 2, price: 100, qty: 3 }]
    );
    assert_eq!(book.asks, vec![order(1, 7, Side::Sell, 100, 2)]);
    assert!(book.bids.is_empty());
}

#[test]
fn no_spurious_match() {
    let mut book = OrderBook::new();
    assert!(book.insert_order(order(1, 7, Side::Buy, 99, 4)).is_empty());
    assert_eq!(book.bids, vec![order(1, 7, Side::Buy, 99, 4)]);
    book.insert_order(order(2, 8, Side::Sell, 101, 5));
    assert!(book.insert_order(order(3, 9, Side::Buy, 100, 2)).is_empty());
    assert!(book.insert_order(order(4, 9, Side::Sell, 101, 2)).is_empty());
    assert_eq!(
        book.bids,
        vec![order(3, 9, Side::Buy, 100, 2), order(1, 7, Side::Buy, 99, 4)]
    );
    assert_eq!(
        book.asks,
        vec![order(2, 8, Side::Sell, 101, 5), order(4, 9, Side::Sell, 101, 2)]
    );
}

#[test]
fn sell_sweeps_bids_at_maker_prices() {
    let mut book = OrderBook::new();
    book.insert_order(order(1, 1, Side::Buy, 101, 2));
    book.insert_order(order(2, 2, Side::Buy, 103, 1));
    book.insert_order(order(3, 3, Side::Buy, 101, 2));
    let trades = book.insert_order(order(4, 4, Side::Sell, 100, 4));
    assert_eq!(
        trades,
        vec![
            Trade { maker_order_id: 2, taker_order_id: 4, price: 103, qty: 1 },
            Trade { maker_order_id: 1, taker_order_id: 4, price: 101, qty: 2 },
            Trade { maker_order_id: 3, taker_order_id: 4, price: 101, qty: 1 },
        ]
    );
    assert_eq!(book.bids, vec![order(3, 3, Side::Buy, 101, 1)]);
    assert!(book.asks.is_empty());
}

#[test]
fn taker_remainder_rests_after_sweep() {
    let mut book = OrderBook::new();
    book.insert_order(order(1, 1, Side::Sell, 100, 2));
    let trades = book.insert_order(order(2, 2, Side::Buy, 102, 5));
    assert_eq!(
        trades,
        vec![Trade { maker_order_id: 1, taker_order_id: 2, price: 100, qty: 2 }]
    );
    assert!(book.asks.is_empty());
    assert_eq!(book.bids, vec![order(2, 2, Side::Buy, 102, 3)]);
    assert!(book.contains_order(2));
    assert!(!book.contains_order(1));
}

#[test]
fn depth_counts_levels() {
    let mut book = OrderBook::new();
    book.insert_order(order(1, 1, Side::Buy, 100, 1));
    book.insert_order(order(2, 1, Side::Buy, 102, 1));
    book.insert_order(order(3, 1, Side::Buy, 100, 1));
    book.insert_order(order(4, 1, Side::Buy, 99, 1));
    assert_eq!(book.depth(Side::Buy, 5), vec![(102, 1), (100, 2), (99, 1)]);
    assert_eq!(book.depth(Side::Buy, 2), vec![(102, 1), (100, 2)]);
    assert_eq!(book.depth(Side::Sell, 5), vec![]);
}

#[test]
fn debit_atomicity() {
    let mut ledger = Ledger::new();
    ledger.credit(1, Asset::Btc, 1);
    let mut successes = 0;
    for _ in 0..100 {
        if ledger.debit(1, Asset::Btc, 1) {
            successes += 1;
        }
    }
    assert_eq!(successes, 1);
    assert_eq!(ledger.get_balance(1, Asset::Btc), 0);
}

#[test]
fn ledger_credit_debit_and_absent_keys() {
    let mut ledger = Ledger::new();
    assert_eq!(ledger.get_balance(5, Asset::Usd), 0);
    ledger.credit(5, Asset::Usd, 40);
    ledger.credit(5, Asset::Usd, 2);
    assert_eq!(ledger.get_balance(5, Asset::Usd), 42);
    assert_eq!(ledger.get_balance(5, Asset::Btc), 0);
    assert_eq!(ledger.get_balance(6, Asset::Usd), 0);
    assert!(!ledger.debit(5, Asset::Usd, 43));
    assert_eq!(ledger.get_balance(5, Asset::Usd), 42);
    assert!(ledger.debit(5, Asset::Usd, 42));
    assert_eq!(ledger.get_balance(5, Asset::Usd), 0);
}

#[test]
fn reservation_gate() {
    let mut ledger = Ledger::new();
    ledger.credit(1, Asset::Usd, 1000);
    ledger.credit(1, Asset::Btc, 3);
    assert!(!ledger.try_place_order(1, Side::Buy, 101, 10));
    assert!(ledger.try_place_order(1, Side::Buy, 100, 10));
    assert_eq!(ledger.get_balance(1, Asset::Usd), 0);
    assert!(!ledger.try_place_order(1, Side::Sell, 100, 4));
    assert!(ledger.try_place_order(1, Side::Sell, 100, 3));
    assert_eq!(ledger.get_balance(1, Asset::Btc), 0);
    assert!(!ledger.try_place_order(2, Side::Buy, u64::MAX, 2));
}

#[test]
fn reservation_gate_refuses_zero_orders() {
    let mut ledger = Ledger::new();
    ledger.credit(1, Asset::Usd, 1000);
    ledger.credit(1, Asset::Btc, 3);
    assert!(!ledger.try_place_order(1, Side::Sell, 100, 0));
    assert!(!ledger.try_place_order(1, Side::Buy, 0, 5));
    assert!(!ledger.try_place_order(1, Side::Buy, 100, 0));
    assert!(!ledger.try_place_order(2, Side::Sell, 100, 0));
    assert_eq!(ledger.get_balance(1, Asset::Usd), 1000);
    assert_eq!(ledger.get_balance(1, Asset::Btc), 3);
}

#[test]
fn settle_trade_credits_both_sides() {
    let mut ledger = Ledger::new();
    ledger.settle_trade(1, 2, 100, 5);
    assert_eq!(ledger.get_balance(1, Asset::Btc), 5);
    assert_eq!(ledger.get_balance(1, Asset::Usd), 0);
    assert_eq!(ledger.get_balance(2, Asset::Usd), 500);
    assert_eq!(ledger.get_balance(2, Asset::Btc), 0);
}

#[test]
fn directory_register_and_deregister() {
    let mut ledger = Ledger::new();
    let o = order(77, 3, Side::Buy, 10, 1);
    assert_eq!(ledger.order_account(77), None);
    ledger.register_order(&o);
    assert_eq!(ledger.order_account(77), Some(3));
    assert_eq!(ledger.order_entry(77), Some((3, Side::Buy)));
    ledger.register_order(&order(78, 4, Side::Sell, 10, 1));
    assert_eq!(ledger.order_entry(78), Some((4, Side::Sell)));
    ledger.deregister_order(77);
    assert_eq!(ledger.order_account(77), None);
    assert_eq!(ledger.order_entry(77), None);
}

#[test]
fn end_to_end_example() {
    let mut ledger = Ledger::new();
    let mut book = OrderBook::new();
    ledger.credit(1, Asset::Usd, 1000);
    ledger.credit(2, Asset::Btc, 10);
    let sell = order(20, 2, Side::Sell, 100, 5);
    assert_eq!(place_order(&mut ledger, &mut book, sell), Ok(vec![]));
    assert_eq!(ledger.get_balance(2, Asset::Btc), 5);
    assert_eq!(ledger.order_account(20), Some(2));
    let buy = order(10, 1, Side::Buy, 100, 5);
    let trades = place_order(&mut ledger, &mut book, buy).unwrap();
    assert_eq!(
        trades,
        vec![Trade { maker_order_id: 20, taker_order_id: 10, price: 100, qty: 5 }]
    );
    assert_eq!(ledger.get_balance(1, Asset::Usd), 500);
    assert_eq!(ledger.get_balance(1, Asset::Btc), 5);
    assert_eq!(ledger.get_balance(2, Asset::Usd), 500);
    assert_eq!(ledger.get_balance(2, Asset::Btc), 5);
    assert!(book.bids.is_empty() && book.asks.is_empty());
    assert_eq!(ledger.order_account(20), None);
    assert_eq!(ledger.order_account(10), None);
}

#[test]
fn place_order_rejections() {
    let mut ledger = Ledger::new();
    let mut book = OrderBook::new();
    ledger.credit(1, Asset::Usd, 100);
    assert_eq!(
        place_order(&mut ledger, &mut book, order(1, 1, Side::Buy, 0, 1)),
        Err(PlaceError::InvalidOrder)
    );
    assert_eq!(
        place_order(&mut ledger, &mut book, order(1, 1, Side::Buy, 10, 0)),
        Err(PlaceError::InvalidOrder)
    );
    assert_eq!(
        place_order(&mut ledger, &mut book, order(1, 1, Side::Buy, 10, 11)),
        Err(PlaceError::InsufficientFunds)
    );
    assert_eq!(ledger.get_balance(1, Asset::Usd), 100);
    assert_eq!(place_order(&mut ledger, &mut book, order(1, 1, Side::Buy, 10, 4)), Ok(vec![]));
    assert_eq!(ledger.get_balance(1, Asset::Usd), 60);
    assert_eq!(
        place_order(&mut ledger, &mut book, order(1, 1, Side::Buy, 10, 1)),
        Err(PlaceError::DuplicateId)
    );
    assert_eq!(ledger.get_balance(1, Asset::Usd), 60);
    assert_eq!(book.bids, vec![order(1, 1, Side::Buy, 10, 4)]);
}

#[test]
fn partial_fill_keeps_maker_registered() {
    let mut ledger = Ledger::new();
    let mut book = OrderBook::new();
    ledger.credit(1, Asset::Btc, 5);
    ledger.credit(2, Asset::Usd, 1000);
    place_order(&mut ledger, &mut book, order(1, 1, Side::Sell, 100, 5)).unwrap();
    let trades = place_order(&mut ledger, &mut book, order(2, 2, Side::Buy, 100, 3)).unwrap();
    assert_eq!(
        trades,
        vec![Trade { maker_order_id: 1, taker_order_id: 2, price: 100, qty: 3 }]
    );
    assert_eq!(ledger.order_account(1), Some(1));
    assert_eq!(ledger.order_account(2), None);
    assert_eq!(ledger.get_balance(1, Asset::Usd), 300);
    assert_eq!(ledger.get_balance(2, Asset::Btc), 3);
    assert_eq!(ledger.get_balance(2, Asset::Usd), 700);
}

#[test]
fn sell_taker_is_seller_in_settlement() {
    let mut ledger = Ledger::new();
    let mut book = OrderBook::new();
    ledger.credit(1, Asset::Usd, 1050);
    ledger.credit(2, Asset::Btc, 10);
    place_order(&mut ledger, &mut book, order(1, 1, Side::Buy, 105, 10)).unwrap();
    let trades = place_order(&mut ledger, &mut book, order(2, 2, Side::Sell, 100, 10)).unwrap();
    assert_eq!(
        trades,
        vec![Trade { maker_order_id: 1, taker_order_id: 2, price: 105, qty: 10 }]
    );
    assert_eq!(ledger.get_balance(1, Asset::Btc), 10);
    assert_eq!(ledger.get_balance(2, Asset::Usd), 1050);
    assert_eq!(ledger.get_balance(2, Asset::Btc), 0);
}

#[test]
fn settlement_overflow_is_reported() {
    let mut ledger = Ledger::new();
    let mut book = OrderBook::new();
    ledger.credit(1, Asset::Btc, 1);
    ledger.credit(2, Asset::Usd, u64::MAX);
    place_order(&mut ledger, &mut book, order(1, 1, Side::Sell, 1, 1)).unwrap();
    ledger.credit(1, Asset::Usd, u64::MAX);
    assert_eq!(
        place_order(&mut ledger, &mut book, order(2, 2, Side::Buy, 1, 1)),
        Err(PlaceError::BalanceOverflow)
    );
    assert_eq!(ledger.get_balance(1, Asset::Usd), u64::MAX);
    assert!(book.asks.is_empty() && book.bids.is_empty());
}

#[test]
fn settle_fill_unknown_maker() {
    let mut ledger = Ledger::new();
    let taker = order(9, 1, Side::Buy, 100, 1);
    let trade = Trade { maker_order_id: 8, taker_order_id: 9, price: 100, qty: 1 };
    assert_eq!(settle_fill(&mut ledger, &taker, &trade), Err(PlaceError::UnknownOrder));
    assert_eq!(ledger.get_balance(1, Asset::Btc), 0);
}

#[test]
fn new_orders_get_distinct_ids() {
    let a = Order::new(1, Side::Buy, 100, 2, 0);
    let b = Order::new(1, Side::Buy, 100, 2, 0);
    assert_ne!(a.id, b.id);
    assert_eq!((a.account_id, a.side, a.price, a.qty), (1, Side::Buy, 100, 2));
}

fn reserved(book: &OrderBook, asset: Asset) -> u64 {
    let bids: u64 = book.bids.iter().map(|o| o.price * o.qty).sum();
    let asks: u64 = book.asks.iter().map(|o| o.qty).sum();
    match asset {
        Asset::Usd => bids,
        Asset::Btc => asks,
    }
}

fn total(ledger: &Ledger, book: &OrderBook, accounts: &[u64], asset: Asset) -> u64 {
    accounts.iter().map(|a| ledger.get_balance(*a, asset)).sum::<u64>() + reserved(book, asset)
}

#[test]
fn funds_are_conserved() {
    let mut ledger = Ledger::new();
    let mut book = OrderBook::new();
    let accounts = [1u64, 2, 3];
    for a in accounts {
        ledger.credit(a, Asset::Usd, 10_000);
        ledger.credit(a, Asset::Btc, 50);
    }
    let usd = total(&ledger, &book, &accounts, Asset::Usd);
    let btc = total(&ledger, &book, &accounts, Asset::Btc);
    let orders = [
        order(1, 1, Side::Sell, 100, 5),
        order(2, 2, Side::Sell, 101, 7),
        order(3, 3, Side::Buy, 99, 4),
        order(4, 3, Side::Sell, 99, 6),
        order(5, 2, Side::Buy, 100, 3),
        order(6, 1, Side::Buy, 101, 9),
    ];
    for o in orders {
        place_order(&mut ledger, &mut book, o).unwrap();
        assert_eq!(total(&ledger, &book, &accounts, Asset::Btc), btc);
    }
    assert_eq!(total(&ledger, &book, &accounts, Asset::Usd), usd);
    // Order 5 bought 2 at 99 and order 6 bought 4 at 100, each 1 below its
    // limit: 6 USD came back to their accounts.
    assert_eq!(ledger.get_balance(2, Asset::Usd), 10_000 - 2 * 99 - 100 + 101 * 5);
}

#[test]
fn usd_is_conserved_when_buys_trade_at_their_price() {
    let mut ledger = Ledger::new();
    let mut book = OrderBook::new();
    let accounts = [1u64, 2, 3];
    for a in accounts {
        ledger.credit(a, Asset::Usd, 10_000);
        ledger.credit(a, Asset::Btc, 50);
    }
    let usd = total(&ledger, &book, &accounts, Asset::Usd);
    let btc = total(&ledger, &book, &accounts, Asset::Btc);
    let orders = [
        order(1, 1, Side::Sell, 100, 5),
        order(2, 2, Side::Buy, 100, 3),
        order(3, 3, Side::Buy, 98, 4),
        order(4, 1, Side::Sell, 97, 4),
        order(5, 2, Side::Buy, 100, 9),
    ];
    for o in orders {
        place_order(&mut ledger, &mut book, o).unwrap();
        assert_eq!(total(&ledger, &book, &accounts, Asset::Usd), usd);
        assert_eq!(total(&ledger, &book, &accounts, Asset::Btc), btc);
    }
}

#[test]
fn buy_price_improvement_is_refunded() {
    let mut ledger = Ledger::new();
    let mut book = OrderBook::new();
    ledger.credit(1, Asset::Btc, 1);
    ledger.credit(2, Asset::Usd, 110);
    place_order(&mut ledger, &mut book, order(1, 1, Side::Sell, 100, 1)).unwrap();
    place_order(&mut ledger, &mut book, order(2, 2, Side::Buy, 110, 1)).unwrap();
    assert_eq!(ledger.get_balance(1, Asset::Usd), 100);
    assert_eq!(ledger.get_balance(2, Asset::Usd), 10);
    assert_eq!(ledger.get_balance(2, Asset::Btc), 1);
}

#[test]
fn each_id_rests_once() {
    let mut book = OrderBook::new();
    let orders = [
        order(1, 1, Side::Sell, 100, 5),
        order(2, 2, Side::Buy, 98, 2),
        order(3, 3, Side::Buy, 102, 7),
        order(4, 1, Side::Sell, 97, 1),
        order(5, 2, Side::Sell, 103, 4),
    ];
    for o in orders {
        book.insert_order(o);
    }
    let mut ids: Vec<u128> = book.bids.iter().chain(book.asks.iter()).map(|o| o.id).collect();
    let n = ids.len();
    ids.sort();
    ids.dedup();
    assert_eq!(ids.len(), n);
    assert_eq!(book.bids, vec![order(3, 3, Side::Buy, 102, 1), order(2, 2, Side::Buy, 98, 2)]);
    assert_eq!(book.asks, vec![order(5, 2, Side::Sell, 103, 4)]);
    assert!(book.bids[0].price < book.asks[0].price);
}

#[test]
fn debit_credit_run_on_one_balance() {
    let mut ledger = Ledger::new();
    ledger.credit(4, Asset::Usd, 10);
    assert!(ledger.debit(4, Asset::Usd, 7));
    assert!(!ledger.debit(4, Asset::Usd, 7));
    ledger.credit(4, Asset::Usd, 5);
    assert!(ledger.debit(4, Asset::Usd, 7));
    assert!(!ledger.debit(4, Asset::Usd, 2));
    assert_eq!(ledger.get_balance(4, Asset::Usd), 1);
}
