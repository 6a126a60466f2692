//! Detection of cross-token interest-rate arbitrage between discount-priced
//! fixed-term lending and borrowing quotes.
//!
//! The crate has two parts: a rate model ([`rate`]) that turns a discount
//! price and a maturity timestamp into an exact annualized interest rate, and
//! an opportunity engine ([`engine`]) that groups quotes by maturity,
//! cross-matches borrow against lend quotes, and scores the resulting carry
//! trades by USD profit.  Fetching quotes from a market and submitting trades
//! are outside collaborators: the engine works on one snapshot of already
//! normalized quotes per invocation.
//!
//! Rates and profits are exact rationals over integers, so every filtering
//! decision the engine makes is exact rather than subject to rounding.

pub mod engine;
pub mod rate;
pub mod utils;
