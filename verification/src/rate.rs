//! The rate model: conversion of a discount price and a maturity timestamp
//! into an annualized interest rate, relative to an explicit current time.
//!
//! A fixed-term instrument bought at discount price `price` (on a scale where
//! `10000` is par) and held until `maturity` yields `(10000 - price) / price`
//! over `maturity - now` seconds; annualized, that is
//!
//! ```text
//! rate = (10000 - price) / (price * ((maturity - now) / seconds_per_year))
//! ```
//!
//! The rate is kept as an exact rational [`Rate`] rather than rounded, so
//! that comparisons between rates are exact.

use vstd::prelude::*;

verus! {

/// Number of seconds in the 365-day year the annualization uses.
pub const SECONDS_PER_YEAR: u64 = 31_536_000;

/// Par price of an instrument at maturity.
pub const PAR_PRICE: u64 = 10_000;

/// An annualized interest rate, as the exact rational `num / den`.
///
/// For a rate produced by [`annualized_rate`] both parts are positive, so the
/// rate is finite and strictly positive.
#[derive(Clone, Copy, PartialEq, Eq, Structural, Debug)]
pub struct Rate {
    /// Numerator: `(10000 - price) * SECONDS_PER_YEAR`.
    pub num: u64,
    /// Denominator: `price * (maturity - now)`.
    pub den: u128,
}

/// Numerator of the annualized rate for a quote at `price`.
pub open spec fn rate_num(price: int) -> int {
    (PAR_PRICE - price) * SECONDS_PER_YEAR
}

/// Denominator of the annualized rate for a quote at `price` maturing at
/// `maturity`, seen from `now`.
pub open spec fn rate_den(price: int, maturity: int, now: int) -> int {
    price * (maturity - now)
}

/// A quote admits a well-defined, finite, positive rate exactly when its
/// price lies strictly between zero and par and it matures strictly in the
/// future.  A price of zero would divide by zero, a price at par yields no
/// interest, and a maturity at or before `now` makes the year fraction
/// degenerate; the engine must skip all three.
pub open spec fn rate_valid(price: int, maturity: int, now: int) -> bool {
    &&& 0 < price < PAR_PRICE
    &&& now < maturity
}

/// A product of non-negative factors is bounded by the product of their
/// bounds.
pub proof fn lemma_mul_le(a: int, b: int, x: int, y: int)
    requires
        0 <= a <= x,
        0 <= b <= y,
    ensures
        0 <= a * b <= x * y,
{
    assert(0 <= a * b <= x * y) by (nonlinear_arith)
        requires
            0 <= a <= x,
            0 <= b <= y,
    ;
}

/// Multiplying a non-negative number by a factor of at least one cannot
/// shrink it.
pub proof fn lemma_mul_ge_one(a: int, b: int)
    requires
        0 <= a,
        1 <= b,
    ensures
        a <= a * b,
{
    assert(a <= a * b) by (nonlinear_arith)
        requires
            0 <= a,
            1 <= b,
    ;
}

/// A product of positive factors is positive.
pub proof fn lemma_mul_pos(a: int, b: int)
    requires
        0 < a,
        0 < b,
    ensures
        0 < a * b,
{
    assert(0 < a * b) by (nonlinear_arith)
        requires
            0 < a,
            0 < b,
    ;
}

/// The annualized interest rate implied by buying at `price` (discount scale,
/// `10000` is par) an instrument that matures at `maturity`, seen from `now`
/// (both unix timestamps in seconds).
///
/// The result is the exact rational
/// `(10000 - price) / (price * (maturity - now) / SECONDS_PER_YEAR)`,
/// and both of its parts are strictly positive: for every valid input the
/// rate is finite and strictly positive.
pub fn annualized_rate(price: i16, maturity: u64, now: u64) -> (r: Rate)
    requires
        rate_valid(price as int, maturity as int, now as int),
    ensures
        r.num == rate_num(price as int),
        r.den == rate_den(price as int, maturity as int, now as int),
        0 < r.num,
        0 < r.den,
{
    let num: u64 = (PAR_PRICE - price as u64) * SECONDS_PER_YEAR;
    let delta: u64 = maturity - now;
    proof {
        lemma_mul_le(price as int, delta as int, 9999, u64::MAX as int);
        lemma_mul_pos(price as int, delta as int);
    }
    let den: u128 = (price as u128) * (delta as u128);
    Rate { num, den }
}

/// The annualized rate is strictly decreasing in the discount price, for a
/// fixed maturity and current time: the deeper the discount, the higher the
/// implied rate.
pub proof fn lemma_rate_strictly_decreasing_in_price(p1: int, p2: int, maturity: int, now: int)
    requires
        rate_valid(p1, maturity, now),
        rate_valid(p2, maturity, now),
        p1 < p2,
    ensures
        rate_num(p2) * rate_den(p1, maturity, now) < rate_num(p1) * rate_den(p2, maturity, now),
{
    let d = maturity - now;
    assert(((PAR_PRICE - p2) * SECONDS_PER_YEAR) * (p1 * d) < ((PAR_PRICE - p1)
        * SECONDS_PER_YEAR) * (p2 * d)) by (nonlinear_arith)
        requires
            0 < p1 < PAR_PRICE,
            0 < p2 < PAR_PRICE,
            p1 < p2,
            0 < d,
            SECONDS_PER_YEAR == 31_536_000,
            PAR_PRICE == 10_000,
    ;
}

/// Bounds on the parts of a valid rate, used to show that cross-multiplied
/// rate comparisons fit in 128 bits.
pub proof fn lemma_rate_bounds(price: int, maturity: int, now: int)
    requires
        rate_valid(price, maturity, now),
        0 <= now,
        maturity <= u64::MAX,
    ensures
        0 < rate_num(price) < 0x8000000000,
        0 < rate_den(price, maturity, now) <= 9999 * (u64::MAX as int),
{
    lemma_mul_le(price, maturity - now, 9999, u64::MAX as int);
    lemma_mul_pos(price, maturity - now);
}

} // verus!
