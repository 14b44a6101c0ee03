//! Tip jars that split each incoming tip across their recipients by
//! basis-point shares.

pub mod types;
pub mod splits;
pub mod payout;
pub mod store;
pub mod contract;
pub mod laws;

pub use contract::TipSplitter;
pub use types::{Address, Error, Event, Failure, Jar, Payment, Split, TipReceipt};
