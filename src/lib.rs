//! An append-only ledger of income and expense events, and the views that are
//! folded out of it: the live transaction list and a per-day timeline over a
//! reporting window.

mod date;
pub mod laws;
mod log;
pub mod state;
pub mod model;
mod transaction;

pub use date::{Date, DateRange, DEFAULT_END_DAY, DEFAULT_START_DAY, UNIX_EPOCH_DAY};
pub use log::{Entry, Log};
pub use model::MAX_TRANSACTIONS;
pub use transaction::{
    DateSummary, Dollars, TimelineData, Transaction, TransactionId, TransactionKind,
    TransactionRecord, TransactionsListData,
};
