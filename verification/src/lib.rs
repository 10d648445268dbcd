//! Monitors the gap between perpetual-futures and spot prices of the same
//! symbols and decides which symbols should trigger a notification.
//!
//! Prices are exact fixed-point values: a price is a `u64` count of
//! `10^-8` units, and a gap threshold is a `u64` count of `10^-4` percent.
//! All gap comparisons are exact integer arithmetic, so a symbol qualifies
//! if and only if its true relative gap exceeds the threshold.

pub mod catalog;
pub mod codec;
pub mod cycle;
pub mod gap;
pub mod ledger;
pub mod price;
pub mod text;
