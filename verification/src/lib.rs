//! Copy-trading engine for Polymarket: watches a target wallet, diffs its
//! positions, sizes proportional copy trades and decides the orders to send.
//!
//! Every amount is a fixed-point integer with six decimals ("micro-units"):
//! a balance of 12.5 USDC is `12_500_000`, a price of 0.55 USDC per share is
//! `550_000`, and a size of 3 shares is `3_000_000`.

pub mod units;
pub mod auth;
pub mod text;
pub mod types;
pub mod config;
pub mod sizer;
pub mod monitor;
pub mod client;
pub mod executor;


