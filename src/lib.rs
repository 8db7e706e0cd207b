//! Transactional core of a single-pair exchange: a price-time-priority order
//! book, a ledger that reserves funds before admission, and the settlement
//! step that moves reserved funds to the counterparties of each trade.

mod store;
pub mod types;
pub mod order_book;
pub mod ledger;
pub mod settlement;
pub mod conservation;
