//! The opportunity engine: grouping of quotes by maturity, cross-matching of
//! borrow against lend quotes, and scoring of the resulting carry trades by
//! USD profit.
//!
//! The engine owns a table of per-token USD prices (fixed at construction)
//! and a set of detected opportunities keyed by maturity.  One call to
//! [`Arbitrage::calculate_arbitrage_opportunities`] processes one snapshot of
//! quotes: every maturity that occurs in the snapshot has its bucket matched
//! independently and its entry in the opportunity set replaced.
//!
//! All scoring is exact: a profit is the rational `num / den` in USD, and a
//! pair is emitted exactly when that rational strictly exceeds the configured
//! fees.  Token USD prices and fees are given in millionths of a USD
//! ([`USD_SCALE`]).

use std::collections::HashMap;
use vstd::prelude::*;

use crate::rate::{
    annualized_rate, lemma_mul_ge_one, lemma_mul_le, lemma_mul_pos, lemma_rate_bounds, rate_den,
    rate_num, rate_valid, PAR_PRICE,
};
use crate::utils::{filter_maturity, group_by, has_maturity};

verus! {

broadcast use vstd::std_specs::hash::group_hash_axioms;

/// Number of price-table and fee units in one USD.
pub const USD_SCALE: u64 = 1_000_000;

/// The side of a quote: an offer to lend, or an offer to borrow.
#[allow(non_camel_case_types)]
#[derive(Clone, Copy, PartialEq, Eq, Structural, Debug)]
pub enum PositionType {
    LEND,
    BORROW,
}

/// A fungible asset, identified by its symbol; two tokens are the same asset
/// exactly when their names are equal.
#[derive(Debug)]
pub struct Token {
    pub name: String,
}

impl Clone for Token {
    fn clone(&self) -> (res: Self)
        ensures
            res == *self,
    {
        Token { name: self.name.clone() }
    }
}

/// A single borrow-or-lend quote: a discount price on the scale where
/// `10000` is par, a maturity as a unix timestamp in seconds, and an amount
/// in the token's native unit.
#[derive(Debug)]
pub struct Order {
    pub token: Token,
    /// Discount price, within `[0, 10000]`; `10000` is par.
    pub price: i16,
    /// Unix timestamp (seconds) at which the position settles.
    pub maturity: u64,
    pub pos_type: PositionType,
    /// Quantity in the token's native unit.
    pub amount: u64,
}

impl Clone for Order {
    fn clone(&self) -> (res: Self)
        ensures
            res == *self,
    {
        Order {
            token: self.token.clone(),
            price: self.price,
            maturity: self.maturity,
            pos_type: self.pos_type,
            amount: self.amount,
        }
    }
}

/// An exact USD amount, as the rational `num / den`.
#[derive(Clone, Copy, PartialEq, Eq, Structural, Debug)]
pub struct ProfitUsd {
    pub num: u128,
    pub den: u128,
}

/// A matched borrow/lend pair together with the exact USD profit of the
/// carry trade between the two.  Created only by the engine, and only with a
/// strictly positive profit.
#[derive(Debug)]
pub struct Opportunity {
    pub borrow_position: Order,
    pub lend_position: Order,
    pub profit: ProfitUsd,
}

impl Clone for Opportunity {
    fn clone(&self) -> (res: Self)
        ensures
            res == *self,
    {
        Opportunity {
            borrow_position: self.borrow_position.clone(),
            lend_position: self.lend_position.clone(),
            profit: self.profit,
        }
    }
}

/// USD price of a token under a price table, by first matching entry.
pub open spec fn price_lookup(prices: Seq<(String, u64)>, name: Seq<char>) -> Option<u64>
    decreases prices.len(),
{
    if prices.len() == 0 {
        None
    } else if prices[0].0@ == name {
        Some(prices[0].1)
    } else {
        price_lookup(prices.drop_first(), name)
    }
}

/// The borrow-side quotes of a bucket, in their original order.
pub open spec fn borrows_of(s: Seq<Order>) -> Seq<Order>
    decreases s.len(),
{
    if s.len() == 0 {
        Seq::empty()
    } else if s.last().pos_type == PositionType::BORROW {
        borrows_of(s.drop_last()).push(s.last())
    } else {
        borrows_of(s.drop_last())
    }
}

/// The lend-side quotes of a bucket, in their original order.
pub open spec fn lends_of(s: Seq<Order>) -> Seq<Order>
    decreases s.len(),
{
    if s.len() == 0 {
        Seq::empty()
    } else if s.last().pos_type == PositionType::BORROW {
        lends_of(s.drop_last())
    } else {
        lends_of(s.drop_last()).push(s.last())
    }
}

/// Numerator of the exact rate differential `lend_rate - borrow_rate` of a
/// pair, over the common denominator [`diff_den`].
pub open spec fn diff_num(b: Order, l: Order, now: int) -> int {
    rate_num(l.price as int) * rate_den(b.price as int, b.maturity as int, now) - rate_num(
        b.price as int,
    ) * rate_den(l.price as int, l.maturity as int, now)
}

/// Denominator of the exact rate differential of a pair; positive whenever
/// both quotes admit valid rates.
pub open spec fn diff_den(b: Order, l: Order, now: int) -> int {
    rate_den(l.price as int, l.maturity as int, now) * rate_den(
        b.price as int,
        b.maturity as int,
        now,
    )
}

/// Numerator of the exact USD profit of a pair: rate differential times the
/// borrow amount times the borrow token's USD price (in [`USD_SCALE`]ths).
pub open spec fn profit_num(b: Order, l: Order, now: int, usd: int) -> int {
    diff_num(b, l, now) * b.amount * usd
}

/// Denominator of the exact USD profit of a pair.
pub open spec fn profit_den(b: Order, l: Order, now: int) -> int {
    diff_den(b, l, now) * USD_SCALE
}

/// Whether the exact profit of a pair is representable in the 128 bits the
/// engine scores with.  A pair beyond this capacity is skipped, like an
/// unpriceable one; the bound is unreachable for realistic maturities,
/// amounts and prices.
pub open spec fn scoreable(b: Order, l: Order, now: int, usd: int) -> bool {
    &&& profit_num(b, l, now, usd) <= u128::MAX
    &&& profit_den(b, l, now) <= u128::MAX
}

/// Whether the engine emits an opportunity for the ordered pair of a borrow
/// quote `b` and a lend quote `l`: the tokens must differ, both quotes must
/// admit valid rates, the rate differential must be non-negative, the borrow
/// token must be priced, the score must be representable, and the exact USD
/// profit must strictly exceed the fees (in [`USD_SCALE`]ths of a USD).
pub open spec fn emits(b: Order, l: Order, now: int, prices: Seq<(String, u64)>, fees: int) -> bool {
    match price_lookup(prices, b.token.name@) {
        Some(usd) => {
            &&& b.token.name@ != l.token.name@
            &&& rate_valid(b.price as int, b.maturity as int, now)
            &&& rate_valid(l.price as int, l.maturity as int, now)
            &&& diff_num(b, l, now) >= 0
            &&& scoreable(b, l, now, usd as int)
            &&& profit_num(b, l, now, usd as int) > fees * diff_den(b, l, now)
        },
        None => false,
    }
}

/// The opportunity emitted for a pair, carrying the two quotes and the exact
/// USD profit of the carry trade, net of the fees.
pub open spec fn opp_of(b: Order, l: Order, now: int, usd: int, fees: int) -> Opportunity {
    Opportunity {
        borrow_position: b,
        lend_position: l,
        profit: ProfitUsd {
            num: (profit_num(b, l, now, usd) - fees * diff_den(b, l, now)) as u128,
            den: profit_den(b, l, now) as u128,
        },
    }
}

/// The opportunities emitted for one borrow quote against a sequence of lend
/// quotes, in the lend quotes' order.
pub open spec fn match_lends(
    b: Order,
    lends: Seq<Order>,
    now: int,
    prices: Seq<(String, u64)>,
    fees: int,
) -> Seq<Opportunity>
    decreases lends.len(),
{
    if lends.len() == 0 {
        Seq::empty()
    } else if emits(b, lends.last(), now, prices, fees) {
        match_lends(b, lends.drop_last(), now, prices, fees).push(
            opp_of(b, lends.last(), now, price_lookup(prices, b.token.name@).unwrap() as int, fees),
        )
    } else {
        match_lends(b, lends.drop_last(), now, prices, fees)
    }
}

/// The opportunities emitted for the full cross product of borrow and lend
/// quotes, borrow-major.
pub open spec fn match_orders(
    borrows: Seq<Order>,
    lends: Seq<Order>,
    now: int,
    prices: Seq<(String, u64)>,
    fees: int,
) -> Seq<Opportunity>
    decreases borrows.len(),
{
    if borrows.len() == 0 {
        Seq::empty()
    } else {
        match_orders(borrows.drop_last(), lends, now, prices, fees) + match_lends(
            borrows.last(),
            lends,
            now,
            prices,
            fees,
        )
    }
}

/// The opportunities emitted for one maturity bucket: its borrow quotes are
/// cross-matched against its lend quotes, in pair-iteration order.
pub open spec fn match_bucket_spec(
    orders: Seq<Order>,
    now: int,
    prices: Seq<(String, u64)>,
    fees: int,
) -> Seq<Opportunity> {
    match_orders(borrows_of(orders), lends_of(orders), now, prices, fees)
}

/// A map of maturity to detected opportunities, with the vectors of
/// opportunities abstracted to sequences.
pub open spec fn map_view(m: Map<u64, Vec<Opportunity>>) -> Map<u64, Seq<Opportunity>> {
    Map::new(|k: u64| m.dom().contains(k), |k: u64| m[k]@)
}

/// The opportunity set after one detection pass over `quotes`: every
/// maturity occurring in `quotes` has its entry replaced by the match result
/// of its bucket; every other entry is untouched.
pub open spec fn detect_spec(
    prev: Map<u64, Seq<Opportunity>>,
    quotes: Seq<Order>,
    now: int,
    prices: Seq<(String, u64)>,
    fees: int,
) -> Map<u64, Seq<Opportunity>> {
    Map::new(
        |m: u64| prev.dom().contains(m) || has_maturity(quotes, m),
        |m: u64|
            if has_maturity(quotes, m) {
                match_bucket_spec(filter_maturity(quotes, m), now, prices, fees)
            } else {
                prev[m]
            },
    )
}

/// The opportunity-detection engine.  It owns the per-token USD price table
/// and the fee configuration, both fixed at construction, and the set of
/// detected opportunities, keyed by maturity.
pub struct Arbitrage {
    /// Detected opportunities per maturity, in discovery order.
    pub opportunities: HashMap<u64, Vec<Opportunity>>,
    token_prices_in_usd: Vec<(String, u64)>,
    swap_fee: u64,
    borrow_gas_fee: u64,
    lend_gas_fee: u64,
}

impl Arbitrage {
    /// The engine's price table: token symbol to USD unit price, in
    /// [`USD_SCALE`]ths of a USD.
    pub closed spec fn prices(&self) -> Seq<(String, u64)> {
        self.token_prices_in_usd@
    }

    /// The engine's total execution cost per trade, in [`USD_SCALE`]ths of a
    /// USD: one swap fee plus the gas of the two orders.
    pub closed spec fn fees(&self) -> int {
        self.swap_fee + self.borrow_gas_fee + self.lend_gas_fee
    }

    /// The engine's detected opportunities: maturity to the opportunities of
    /// that maturity's bucket, in discovery order.
    pub closed spec fn opps(&self) -> Map<u64, Seq<Opportunity>> {
        map_view(self.opportunities@)
    }

    /// A fresh engine with the given price table (token symbol to USD unit
    /// price in [`USD_SCALE`]ths) and execution costs (also in
    /// [`USD_SCALE`]ths of a USD; all zero in the baseline configuration),
    /// and no detected opportunities.
    pub fn new(
        token_prices_in_usd: Vec<(String, u64)>,
        swap_fee: u64,
        borrow_gas_fee: u64,
        lend_gas_fee: u64,
    ) -> (engine: Arbitrage)
        ensures
            engine.prices() == token_prices_in_usd@,
            engine.fees() == swap_fee + borrow_gas_fee + lend_gas_fee,
            engine.opps() == Map::<u64, Seq<Opportunity>>::empty(),
    {
        Arbitrage {
            opportunities: HashMap::new(),
            token_prices_in_usd,
            swap_fee,
            borrow_gas_fee,
            lend_gas_fee,
        }
    }

    /// USD price of the named token, by first matching table entry; `None`
    /// for a token the table does not price.
    fn lookup_price(&self, name: &String) -> (res: Option<u64>)
        ensures
            res == price_lookup(self.prices(), name@),
    {
        let n = self.token_prices_in_usd.len();
        proof {
            assert(self.prices().skip(0) =~= self.prices());
        }
        let mut j: usize = 0;
        while j < n
            invariant
                j <= n,
                n == self.prices().len(),
                price_lookup(self.prices(), name@) == price_lookup(
                    self.prices().skip(j as int),
                    name@,
                ),
            decreases n - j,
        {
            let entry = &self.token_prices_in_usd[j];
            if entry.0 == *name {
                assert(self.prices().skip(j as int)[0] == self.prices()[j as int]);
                return Some(entry.1);
            }
            proof {
                assert(self.prices().skip(j as int)[0] == self.prices()[j as int]);
                assert(self.prices().skip(j as int).drop_first() =~= self.prices().skip(
                    j as int + 1,
                ));
            }
            j = j + 1;
        }
        proof {
            assert(self.prices().skip(n as int).len() == 0);
        }
        None
    }

    /// Evaluation of one ordered borrow/lend pair: the emitted opportunity,
    /// or `None` exactly when the engine skips the pair.
    fn score_pair(&self, b: &Order, l: &Order, now: u64) -> (res: Option<Opportunity>)
        ensures
            res matches Some(o) ==> emits(*b, *l, now as int, self.prices(), self.fees()) && o
                == opp_of(
                *b,
                *l,
                now as int,
                price_lookup(self.prices(), b.token.name@).unwrap() as int,
                self.fees(),
            ),
            res is None ==> !emits(*b, *l, now as int, self.prices(), self.fees()),
    {
        let ghost nw = now as int;
        if b.token.name == l.token.name {
            return None;
        }
        if !(b.price > 0 && (b.price as u64) < PAR_PRICE && now < b.maturity) {
            return None;
        }
        if !(l.price > 0 && (l.price as u64) < PAR_PRICE && now < l.maturity) {
            return None;
        }
        let rb = annualized_rate(b.price, b.maturity, now);
        let rl = annualized_rate(l.price, l.maturity, now);
        proof {
            lemma_rate_bounds(b.price as int, b.maturity as int, nw);
            lemma_rate_bounds(l.price as int, l.maturity as int, nw);
            lemma_mul_le(rl.num as int, rb.den as int, 0x8000000000, 9999 * (u64::MAX as int));
            lemma_mul_le(rb.num as int, rl.den as int, 0x8000000000, 9999 * (u64::MAX as int));
            lemma_mul_pos(rl.den as int, rb.den as int);
        }
        let lhs: u128 = (rl.num as u128) * rb.den;
        let rhs: u128 = (rb.num as u128) * rl.den;
        if lhs < rhs {
            proof {
                assert(diff_num(*b, *l, nw) < 0);
            }
            return None;
        }
        let a: u128 = lhs - rhs;
        proof {
            assert(diff_num(*b, *l, nw) == a);
            assert(diff_den(*b, *l, nw) == (rl.den as int) * (rb.den as int));
        }
        let usd: u64 = match self.lookup_price(&b.token.name) {
            Some(u) => u,
            None => {
                return None;
            },
        };
        let n1: u128 = match a.checked_mul(b.amount as u128) {
            Some(v) => v,
            None => {
                proof {
                    if usd == 0 {
                        lemma_mul_le(self.fees(), diff_den(*b, *l, nw), self.fees(), diff_den(*b, *l, nw));
                        assert(profit_num(*b, *l, nw, usd as int) == 0);
                    } else {
                        lemma_mul_ge_one((a as int) * (b.amount as int), usd as int);
                        assert(profit_num(*b, *l, nw, usd as int) > u128::MAX);
                    }
                }
                return None;
            },
        };
        let n2: u128 = match n1.checked_mul(usd as u128) {
            Some(v) => v,
            None => {
                proof {
                    assert(profit_num(*b, *l, nw, usd as int) > u128::MAX);
                }
                return None;
            },
        };
        let d1: u128 = match rl.den.checked_mul(rb.den) {
            Some(v) => v,
            None => {
                proof {
                    lemma_mul_ge_one((rl.den as int) * (rb.den as int), USD_SCALE as int);
                    assert(profit_den(*b, *l, nw) > u128::MAX);
                }
                return None;
            },
        };
        let d2: u128 = match d1.checked_mul(USD_SCALE as u128) {
            Some(v) => v,
            None => {
                proof {
                    assert(profit_den(*b, *l, nw) > u128::MAX);
                }
                return None;
            },
        };
        let fees_total: u128 = self.swap_fee as u128 + self.borrow_gas_fee as u128
            + self.lend_gas_fee as u128;
        let fr: u128 = match fees_total.checked_mul(d1) {
            Some(v) => v,
            None => {
                proof {
                    assert(self.fees() * diff_den(*b, *l, nw) > u128::MAX);
                    assert(profit_num(*b, *l, nw, usd as int) == n2);
                }
                return None;
            },
        };
        if n2 > fr {
            proof {
                assert(profit_num(*b, *l, nw, usd as int) == n2);
                assert(profit_den(*b, *l, nw) == d2);
                assert(self.fees() * diff_den(*b, *l, nw) == fr);
            }
            Some(
                Opportunity {
                    borrow_position: b.clone(),
                    lend_position: l.clone(),
                    profit: ProfitUsd { num: n2 - fr, den: d2 },
                },
            )
        } else {
            proof {
                assert(profit_num(*b, *l, nw, usd as int) == n2);
                assert(self.fees() * diff_den(*b, *l, nw) == fr);
            }
            None
        }
    }

    /// Cross-matching of one bucket of quotes (in the engine's use, the
    /// quotes of one maturity): the emitted opportunities for every ordered
    /// borrow/lend pair, in borrow-major pair order.
    pub fn calculate_arbitrage(&self, orders: &Vec<Order>, now: u64) -> (opportunities: Vec<
        Opportunity,
    >)
        ensures
            opportunities@ == match_bucket_spec(orders@, now as int, self.prices(), self.fees()),
    {
        let mut borrow_orders: Vec<Order> = Vec::new();
        let mut lend_orders: Vec<Order> = Vec::new();
        let mut i: usize = 0;
        while i < orders.len()
            invariant
                i <= orders@.len(),
                borrow_orders@ == borrows_of(orders@.take(i as int)),
                lend_orders@ == lends_of(orders@.take(i as int)),
            decreases orders@.len() - i,
        {
            proof {
                assert(orders@.take(i as int + 1).drop_last() =~= orders@.take(i as int));
                assert(orders@.take(i as int + 1).last() == orders@[i as int]);
            }
            let o = &orders[i];
            if o.pos_type == PositionType::BORROW {
                borrow_orders.push(o.clone());
            } else {
                lend_orders.push(o.clone());
            }
            i = i + 1;
        }
        proof {
            assert(orders@.take(orders@.len() as int) =~= orders@);
        }
        let mut opportunities: Vec<Opportunity> = Vec::new();
        let nb = borrow_orders.len();
        let nl = lend_orders.len();
        proof {
            assert(borrow_orders@.take(0) =~= Seq::<Order>::empty());
        }
        let mut bi: usize = 0;
        while bi < nb
            invariant
                bi <= nb,
                nb == borrow_orders@.len(),
                nl == lend_orders@.len(),
                opportunities@ == match_orders(
                    borrow_orders@.take(bi as int),
                    lend_orders@,
                    now as int,
                    self.prices(),
                    self.fees(),
                ),
            decreases nb - bi,
        {
            let b = &borrow_orders[bi];
            let ghost pre = opportunities@;
            proof {
                assert(lend_orders@.take(0) =~= Seq::<Order>::empty());
                assert(pre + Seq::<Opportunity>::empty() =~= pre);
            }
            let mut li: usize = 0;
            while li < nl
                invariant
                    li <= nl,
                    bi < nb,
                    nb == borrow_orders@.len(),
                    nl == lend_orders@.len(),
                    *b == borrow_orders@[bi as int],
                    pre == match_orders(
                        borrow_orders@.take(bi as int),
                        lend_orders@,
                        now as int,
                        self.prices(),
                        self.fees(),
                    ),
                    opportunities@ == pre + match_lends(
                        *b,
                        lend_orders@.take(li as int),
                        now as int,
                        self.prices(),
                        self.fees(),
                    ),
                decreases nl - li,
            {
                proof {
                    assert(lend_orders@.take(li as int + 1).drop_last() =~= lend_orders@.take(
                        li as int,
                    ));
                    assert(lend_orders@.take(li as int + 1).last() == lend_orders@[li as int]);
                }
                let l = &lend_orders[li];
                match self.score_pair(b, l, now) {
                    Some(o) => {
                        proof {
                            assert((pre + match_lends(
                                *b,
                                lend_orders@.take(li as int),
                                now as int,
                                self.prices(),
                                self.fees(),
                            )).push(o) =~= pre + match_lends(
                                *b,
                                lend_orders@.take(li as int),
                                now as int,
                                self.prices(),
                                self.fees(),
                            ).push(o));
                        }
                        opportunities.push(o);
                    },
                    None => {},
                }
                li = li + 1;
            }
            proof {
                assert(lend_orders@.take(nl as int) =~= lend_orders@);
                assert(borrow_orders@.take(bi as int + 1).drop_last() =~= borrow_orders@.take(
                    bi as int,
                ));
                assert(borrow_orders@.take(bi as int + 1).last() == borrow_orders@[bi as int]);
            }
            bi = bi + 1;
        }
        proof {
            assert(borrow_orders@.take(nb as int) =~= borrow_orders@);
        }
        opportunities
    }

    /// One detection pass over a snapshot of quotes, seen from `now`.
    ///
    /// The snapshot is partitioned into maturity buckets; each bucket is
    /// cross-matched independently and its result replaces the engine's
    /// entry for that maturity.  Entries for maturities the snapshot does
    /// not touch are left as they were; in particular an empty snapshot
    /// changes nothing.
    pub fn calculate_arbitrage_opportunities(&mut self, positions: &Vec<Order>, now: u64)
        ensures
            final(self).prices() == old(self).prices(),
            final(self).fees() == old(self).fees(),
            final(self).opps() == detect_spec(
                old(self).opps(),
                positions@,
                now as int,
                old(self).prices(),
                old(self).fees(),
            ),
    {
        let groups = group_by(positions);
        let ng = groups.len();
        let mut k: usize = 0;
        while k < ng
            invariant
                k <= ng,
                ng == groups@.len(),
                self.prices() == old(self).prices(),
                self.fees() == old(self).fees(),
                forall|a: int, b: int|
                    0 <= a < b < ng ==> (#[trigger] groups@[a]).0 != (#[trigger] groups@[b]).0,
                forall|t: int|
                    0 <= t < ng ==> (#[trigger] groups@[t]).1@ == filter_maturity(
                        positions@,
                        groups@[t].0,
                    ),
                forall|m: u64|
                    has_maturity(positions@, m) <==> exists|t: int|
                        0 <= t < ng && (#[trigger] groups@[t]).0 == m,
                forall|m: u64|
                    self.opportunities@.dom().contains(m) <==> old(
                        self,
                    ).opportunities@.dom().contains(m) || exists|t: int|
                        0 <= t < k && (#[trigger] groups@[t]).0 == m,
                forall|t: int|
                    0 <= t < k ==> self.opportunities@[(#[trigger] groups@[t]).0]@
                        == match_bucket_spec(
                        filter_maturity(positions@, groups@[t].0),
                        now as int,
                        old(self).prices(),
                        old(self).fees(),
                    ),
                forall|m: u64|
                    old(self).opportunities@.dom().contains(m) && !(exists|t: int|
                        0 <= t < k && (#[trigger] groups@[t]).0 == m) ==> self.opportunities@[m]
                        == old(self).opportunities@[m],
            decreases ng - k,
        {
            let pair = &groups[k];
            let result = self.calculate_arbitrage(&pair.1, now);
            self.opportunities.insert(pair.0, result);
            proof {
                assert(groups@[k as int].0 == pair.0);
            }
            k = k + 1;
        }
        proof {
            let fin = map_view(self.opportunities@);
            let goal = detect_spec(
                old(self).opps(),
                positions@,
                now as int,
                old(self).prices(),
                old(self).fees(),
            );
            assert forall|m: u64| fin.dom().contains(m) <==> goal.dom().contains(m) by {
                if has_maturity(positions@, m) {
                    assert(exists|t: int| 0 <= t < ng && (#[trigger] groups@[t]).0 == m);
                }
            }
            assert forall|m: u64| #[trigger] goal.dom().contains(m) implies fin[m] == goal[m] by {
                if has_maturity(positions@, m) {
                    let t = choose|t: int| 0 <= t < ng && (#[trigger] groups@[t]).0 == m;
                    assert(self.opportunities@[m]@ == match_bucket_spec(
                        filter_maturity(positions@, m),
                        now as int,
                        old(self).prices(),
                        old(self).fees(),
                    ));
                } else {
                    assert(self.opportunities@[m] == old(self).opportunities@[m]);
                }
            }
            assert(fin =~= goal);
        }
    }
}

/// Every opportunity of [`match_lends`] pairs the given borrow quote with a
/// lend quote of a different token, and, when the fees are non-negative,
/// carries a strictly positive profit.
proof fn lemma_match_lends_props(
    b: Order,
    lends: Seq<Order>,
    now: int,
    prices: Seq<(String, u64)>,
    fees: int,
)
    ensures
        forall|k: int|
            0 <= k < match_lends(b, lends, now, prices, fees).len() ==> (#[trigger] match_lends(
                b,
                lends,
                now,
                prices,
                fees,
            )[k]).borrow_position.token.name@ != match_lends(
                b,
                lends,
                now,
                prices,
                fees,
            )[k].lend_position.token.name@,
        fees >= 0 ==> forall|k: int|
            0 <= k < match_lends(b, lends, now, prices, fees).len() ==> (#[trigger] match_lends(
                b,
                lends,
                now,
                prices,
                fees,
            )[k]).profit.num > 0 && match_lends(b, lends, now, prices, fees)[k].profit.den > 0,
    decreases lends.len(),
{
    if lends.len() > 0 {
        lemma_match_lends_props(b, lends.drop_last(), now, prices, fees);
        let l = lends.last();
        if emits(b, l, now, prices, fees) {
            let usd = price_lookup(prices, b.token.name@).unwrap() as int;
            lemma_mul_pos(l.price as int, l.maturity - now);
            lemma_mul_pos(b.price as int, b.maturity - now);
            lemma_mul_pos(
                rate_den(l.price as int, l.maturity as int, now),
                rate_den(b.price as int, b.maturity as int, now),
            );
            lemma_mul_pos(diff_den(b, l, now), USD_SCALE as int);
            if fees >= 0 {
                lemma_mul_le(fees, diff_den(b, l, now), fees, diff_den(b, l, now));
                assert(profit_num(b, l, now, usd) > 0);
            }
        }
    }
}

/// As [`lemma_match_lends_props`], for the full cross product of
/// [`match_orders`].
proof fn lemma_match_orders_props(
    borrows: Seq<Order>,
    lends: Seq<Order>,
    now: int,
    prices: Seq<(String, u64)>,
    fees: int,
)
    ensures
        forall|k: int|
            0 <= k < match_orders(borrows, lends, now, prices, fees).len() ==> (
            #[trigger] match_orders(
                borrows,
                lends,
                now,
                prices,
                fees,
            )[k]).borrow_position.token.name@ != match_orders(
                borrows,
                lends,
                now,
                prices,
                fees,
            )[k].lend_position.token.name@,
        fees >= 0 ==> forall|k: int|
            0 <= k < match_orders(borrows, lends, now, prices, fees).len() ==> (
            #[trigger] match_orders(borrows, lends, now, prices, fees)[k]).profit.num > 0
                && match_orders(borrows, lends, now, prices, fees)[k].profit.den > 0,
    decreases borrows.len(),
{
    if borrows.len() > 0 {
        lemma_match_orders_props(borrows.drop_last(), lends, now, prices, fees);
        lemma_match_lends_props(borrows.last(), lends, now, prices, fees);
        let head = match_orders(borrows.drop_last(), lends, now, prices, fees);
        let tail = match_lends(borrows.last(), lends, now, prices, fees);
        assert(forall|k: int|
            0 <= k < head.len() ==> match_orders(borrows, lends, now, prices, fees)[k] == head[k]);
        assert(forall|k: int|
            head.len() <= k < head.len() + tail.len() ==> match_orders(
                borrows,
                lends,
                now,
                prices,
                fees,
            )[k] == tail[k - head.len()]);
    }
}

/// The matching of a bucket never emits an opportunity whose two quotes
/// share a token: a carry trade is always between two distinct assets.
pub proof fn lemma_match_bucket_distinct_tokens(
    orders: Seq<Order>,
    now: int,
    prices: Seq<(String, u64)>,
    fees: int,
)
    ensures
        forall|k: int|
            0 <= k < match_bucket_spec(orders, now, prices, fees).len() ==> (
            #[trigger] match_bucket_spec(
                orders,
                now,
                prices,
                fees,
            )[k]).borrow_position.token.name@ != match_bucket_spec(
                orders,
                now,
                prices,
                fees,
            )[k].lend_position.token.name@,
{
    lemma_match_orders_props(borrows_of(orders), lends_of(orders), now, prices, fees);
}

/// The matching of a bucket never emits an opportunity whose profit is not
/// strictly positive, for any non-negative fee configuration.
pub proof fn lemma_match_bucket_positive_profit(
    orders: Seq<Order>,
    now: int,
    prices: Seq<(String, u64)>,
    fees: int,
)
    requires
        fees >= 0,
    ensures
        forall|k: int|
            0 <= k < match_bucket_spec(orders, now, prices, fees).len() ==> (
            #[trigger] match_bucket_spec(orders, now, prices, fees)[k]).profit.num > 0
                && match_bucket_spec(orders, now, prices, fees)[k].profit.den > 0,
{
    lemma_match_orders_props(borrows_of(orders), lends_of(orders), now, prices, fees);
}

/// Two detection passes over snapshots with disjoint maturities, starting
/// from an empty opportunity set, leave exactly the union of both maturity
/// sets as keys, each maturity mapped to the match result of its own
/// snapshot's bucket: no cross-maturity leakage.
pub proof fn lemma_detect_disjoint_maturities(
    q1: Seq<Order>,
    q2: Seq<Order>,
    now1: int,
    now2: int,
    prices: Seq<(String, u64)>,
    fees: int,
)
    requires
        forall|m: u64| !(#[trigger] has_maturity(q1, m) && has_maturity(q2, m)),
    ensures
        ({
            let s1 = detect_spec(Map::<u64, Seq<Opportunity>>::empty(), q1, now1, prices, fees);
            let s2 = detect_spec(s1, q2, now2, prices, fees);
            &&& forall|m: u64|
                s2.dom().contains(m) <==> #[trigger] has_maturity(q1, m) || has_maturity(q2, m)
            &&& forall|m: u64|
                #[trigger] has_maturity(q1, m) ==> s2[m] == match_bucket_spec(
                    filter_maturity(q1, m),
                    now1,
                    prices,
                    fees,
                )
            &&& forall|m: u64|
                #[trigger] has_maturity(q2, m) ==> s2[m] == match_bucket_spec(
                    filter_maturity(q2, m),
                    now2,
                    prices,
                    fees,
                )
        }),
{
}

/// A detection pass over an empty snapshot is a no-op: the opportunity set
/// keeps exactly its keys and values.
pub proof fn lemma_detect_empty_noop(
    prev: Map<u64, Seq<Opportunity>>,
    now: int,
    prices: Seq<(String, u64)>,
    fees: int,
)
    ensures
        detect_spec(prev, Seq::<Order>::empty(), now, prices, fees) == prev,
{
    assert(detect_spec(prev, Seq::<Order>::empty(), now, prices, fees) =~= prev);
}

} // verus!
