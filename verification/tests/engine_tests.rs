use arbitrage::engine::{Arbitrage, Order, PositionType, Token};

const YEAR: u64 = 31_536_000;
const USD: u64 = 1_000_000;

fn order(name: &str, price: i16, maturity: u64, pos_type: PositionType, amount: u64) -> Order {
    Order { token: Token { name: String::from(name) }, price, maturity, pos_type, amount }
}

fn table(entries: &[(&str, u64)]) -> Vec<(String, u64)> {
    entries.iter().map(|(n, p)| (String::from(*n), *p)).collect()
}

#[test]
fn scenario_positive_differential_emits_opportunity() {
    let now: u64 = 1_700_000_000;
    let maturity = now + YEAR;
    let engine = Arbitrage::new(table(&[("ETH", USD), ("USDC", USD)]), 0, 0, 0);
    let orders = vec![
        order("ETH", 9500, maturity, PositionType::BORROW, 100),
        order("USDC", 9000, maturity, PositionType::LEND, 100),
    ];
    let opps = engine.calculate_arbitrage(&orders, now);
    assert_eq!(opps.len(), 1);
    let opp = &opps[0];
    assert_eq!(opp.borrow_position.token.name, "ETH");
    assert_eq!(opp.lend_position.token.name, "USDC");
    // Exact rational profit: lend rate 1/9, borrow rate 1/19, differential
    // 10/171, times amount 100 and an ETH price of one USD.
    let y = YEAR as u128;
    assert_eq!(opp.profit.num, 500_000_000_000_000u128 * y * y);
    assert_eq!(opp.profit.den, 85_500_000_000_000u128 * y * y);
    let profit = opp.profit.num as f64 / opp.profit.den as f64;
    assert!((profit - 5.848).abs() < 0.01);
}

#[test]
fn scenario_same_token_skipped() {
    let now: u64 = 1_700_000_000;
    let maturity = now + YEAR;
    let engine = Arbitrage::new(table(&[("ETH", USD), ("USDC", USD)]), 0, 0, 0);
    let orders = vec![
        order("ETH", 9500, maturity, PositionType::BORROW, 100),
        order("ETH", 9000, maturity, PositionType::LEND, 100),
    ];
    assert_eq!(engine.calculate_arbitrage(&orders, now).len(), 0);
}

#[test]
fn scenario_negative_differential_skipped() {
    let now: u64 = 1_700_000_000;
    let maturity = now + YEAR;
    let engine = Arbitrage::new(table(&[("ETH", USD), ("USDC", USD)]), 0, 0, 0);
    // Lend rate below borrow rate: no edge.
    let orders = vec![
        order("ETH", 9000, maturity, PositionType::BORROW, 100),
        order("USDC", 9500, maturity, PositionType::LEND, 100),
    ];
    assert_eq!(engine.calculate_arbitrage(&orders, now).len(), 0);
}

#[test]
fn scenario_unpriced_token_skipped() {
    let now: u64 = 1_700_000_000;
    let maturity = now + YEAR;
    // The borrow token is missing from the price table.
    let engine = Arbitrage::new(table(&[("USDC", USD)]), 0, 0, 0);
    let orders = vec![
        order("ETH", 9500, maturity, PositionType::BORROW, 100),
        order("USDC", 9000, maturity, PositionType::LEND, 100),
    ];
    assert_eq!(engine.calculate_arbitrage(&orders, now).len(), 0);
}

#[test]
fn zero_rate_differential_gives_no_profit() {
    let now: u64 = 1_700_000_000;
    let maturity = now + YEAR;
    let engine = Arbitrage::new(table(&[("ETH", USD), ("USDC", USD)]), 0, 0, 0);
    let orders = vec![
        order("ETH", 9500, maturity, PositionType::BORROW, 100),
        order("USDC", 9500, maturity, PositionType::LEND, 100),
    ];
    assert_eq!(engine.calculate_arbitrage(&orders, now).len(), 0);
}

#[test]
fn degenerate_quotes_are_filtered() {
    let now: u64 = 1_700_000_000;
    let maturity = now + YEAR;
    let engine = Arbitrage::new(table(&[("ETH", USD), ("USDC", USD)]), 0, 0, 0);
    // Zero price, par price, and past maturity must all be skipped.
    let orders = vec![
        order("ETH", 0, maturity, PositionType::BORROW, 100),
        order("ETH", 10000, maturity, PositionType::BORROW, 100),
        order("ETH", 9500, now, PositionType::BORROW, 100),
        order("USDC", 9000, maturity, PositionType::LEND, 100),
    ];
    assert_eq!(engine.calculate_arbitrage(&orders, now).len(), 0);
}

#[test]
fn negative_price_is_filtered() {
    let now: u64 = 1_700_000_000;
    let maturity = now + YEAR;
    let engine = Arbitrage::new(table(&[("ETH", USD), ("USDC", USD)]), 0, 0, 0);
    let orders = vec![
        order("ETH", -5, maturity, PositionType::BORROW, 100),
        order("USDC", 9000, maturity, PositionType::LEND, 100),
    ];
    assert_eq!(engine.calculate_arbitrage(&orders, now).len(), 0);
}

#[test]
fn pair_beyond_scoring_capacity_is_skipped() {
    // A maturity near the end of the 64-bit second range pushes the exact
    // profit denominator past 128 bits; such a pair is skipped like an
    // unpriceable one.
    let now: u64 = 1_700_000_000;
    let engine = Arbitrage::new(table(&[("ETH", USD), ("USDC", USD)]), 0, 0, 0);
    let orders = vec![
        order("ETH", 9500, u64::MAX, PositionType::BORROW, 100),
        order("USDC", 9000, u64::MAX, PositionType::LEND, 100),
    ];
    assert_eq!(engine.calculate_arbitrage(&orders, now).len(), 0);
}

#[test]
fn fees_reduce_and_suppress_profit() {
    let now: u64 = 1_700_000_000;
    let maturity = now + YEAR;
    let orders = vec![
        order("ETH", 9500, maturity, PositionType::BORROW, 100),
        order("USDC", 9000, maturity, PositionType::LEND, 100),
    ];
    // One USD of swap fee: the gross 5.848 USD becomes 4.848 net.
    let engine = Arbitrage::new(table(&[("ETH", USD), ("USDC", USD)]), USD, 0, 0);
    let opps = engine.calculate_arbitrage(&orders, now);
    assert_eq!(opps.len(), 1);
    let profit = opps[0].profit.num as f64 / opps[0].profit.den as f64;
    assert!((profit - 4.848).abs() < 0.01);
    // Six USD of fees exceed the gross profit: nothing is emitted.
    let costly = Arbitrage::new(table(&[("ETH", USD), ("USDC", USD)]), 2 * USD, 2 * USD, 2 * USD);
    assert_eq!(costly.calculate_arbitrage(&orders, now).len(), 0);
}

#[test]
fn cross_product_is_borrow_major() {
    let now: u64 = 1_700_000_000;
    let maturity = now + YEAR;
    let engine = Arbitrage::new(
        table(&[("ETH", USD), ("USDC", USD), ("WBTC", USD)]),
        0,
        0,
        0,
    );
    let orders = vec![
        order("ETH", 9500, maturity, PositionType::BORROW, 100),
        order("WBTC", 9400, maturity, PositionType::BORROW, 100),
        order("USDC", 9000, maturity, PositionType::LEND, 100),
        order("ETH", 8500, maturity, PositionType::LEND, 100),
    ];
    let opps = engine.calculate_arbitrage(&orders, now);
    // ETH-borrow matches USDC and the ETH lend is skipped (same token);
    // WBTC-borrow matches both lends; order is borrow-major, lend-minor.
    assert_eq!(opps.len(), 3);
    assert_eq!(opps[0].borrow_position.token.name, "ETH");
    assert_eq!(opps[0].lend_position.token.name, "USDC");
    assert_eq!(opps[1].borrow_position.token.name, "WBTC");
    assert_eq!(opps[1].lend_position.token.name, "USDC");
    assert_eq!(opps[2].borrow_position.token.name, "WBTC");
    assert_eq!(opps[2].lend_position.token.name, "ETH");
    for opp in &opps {
        assert!(opp.profit.num > 0);
        assert_ne!(opp.borrow_position.token.name, opp.lend_position.token.name);
    }
}

#[test]
fn detect_disjoint_maturities_union_of_keys() {
    let now: u64 = 1_700_000_000;
    let m1 = now + YEAR;
    let m2 = now + 2 * YEAR;
    let mut engine = Arbitrage::new(table(&[("ETH", USD), ("USDC", USD)]), 0, 0, 0);
    let first = vec![
        order("ETH", 9500, m1, PositionType::BORROW, 100),
        order("USDC", 9000, m1, PositionType::LEND, 100),
    ];
    let second = vec![
        order("ETH", 9800, m2, PositionType::BORROW, 50),
        order("USDC", 9100, m2, PositionType::LEND, 50),
    ];
    engine.calculate_arbitrage_opportunities(&first, now);
    engine.calculate_arbitrage_opportunities(&second, now);
    assert_eq!(engine.opportunities.len(), 2);
    assert_eq!(engine.opportunities.get(&m1).unwrap().len(), 1);
    assert_eq!(engine.opportunities.get(&m2).unwrap().len(), 1);
    assert_eq!(engine.opportunities.get(&m1).unwrap()[0].borrow_position.maturity, m1);
    assert_eq!(engine.opportunities.get(&m2).unwrap()[0].borrow_position.maturity, m2);
}

#[test]
fn detect_empty_snapshot_is_noop() {
    let now: u64 = 1_700_000_000;
    let m1 = now + YEAR;
    let mut engine = Arbitrage::new(table(&[("ETH", USD), ("USDC", USD)]), 0, 0, 0);
    engine.calculate_arbitrage_opportunities(&Vec::new(), now);
    assert_eq!(engine.opportunities.len(), 0);
    let first = vec![
        order("ETH", 9500, m1, PositionType::BORROW, 100),
        order("USDC", 9000, m1, PositionType::LEND, 100),
    ];
    engine.calculate_arbitrage_opportunities(&first, now);
    let before = engine.opportunities.get(&m1).unwrap().len();
    engine.calculate_arbitrage_opportunities(&Vec::new(), now);
    assert_eq!(engine.opportunities.len(), 1);
    assert_eq!(engine.opportunities.get(&m1).unwrap().len(), before);
}

#[test]
fn detect_replaces_touched_maturity() {
    let now: u64 = 1_700_000_000;
    let m1 = now + YEAR;
    let mut engine = Arbitrage::new(table(&[("ETH", USD), ("USDC", USD)]), 0, 0, 0);
    let profitable = vec![
        order("ETH", 9500, m1, PositionType::BORROW, 100),
        order("USDC", 9000, m1, PositionType::LEND, 100),
    ];
    engine.calculate_arbitrage_opportunities(&profitable, now);
    assert_eq!(engine.opportunities.get(&m1).unwrap().len(), 1);
    // A new snapshot for the same maturity with no edge replaces the entry.
    let flat = vec![
        order("ETH", 9500, m1, PositionType::BORROW, 100),
        order("USDC", 9500, m1, PositionType::LEND, 100),
    ];
    engine.calculate_arbitrage_opportunities(&flat, now);
    assert_eq!(engine.opportunities.len(), 1);
    assert_eq!(engine.opportunities.get(&m1).unwrap().len(), 0);
}

#[test]
fn detect_groups_quotes_by_maturity() {
    let now: u64 = 1_700_000_000;
    let m1 = now + YEAR;
    let m2 = now + 2 * YEAR;
    let mut engine = Arbitrage::new(table(&[("ETH", USD), ("USDC", USD)]), 0, 0, 0);
    // The profitable pair at m1 must not match quotes of m2.
    let snapshot = vec![
        order("ETH", 9500, m1, PositionType::BORROW, 100),
        order("USDC", 9000, m2, PositionType::LEND, 100),
    ];
    engine.calculate_arbitrage_opportunities(&snapshot, now);
    assert_eq!(engine.opportunities.len(), 2);
    assert_eq!(engine.opportunities.get(&m1).unwrap().len(), 0);
    assert_eq!(engine.opportunities.get(&m2).unwrap().len(), 0);
}
