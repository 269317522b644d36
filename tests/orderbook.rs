use orderbook_aggregator::aggregate::{AggregatedOrderbook, Level, Summary};
use orderbook_aggregator::book::{Orderbook, PriceLevel, Side};
use orderbook_aggregator::decimal::Decimal;
use std::cmp::Ordering;

fn dec(s: &str) -> Decimal {
    Decimal::parse(s).unwrap()
}

fn level(exchange: &str, price: &str, amount: &str) -> Level {
    Level { exchange: exchange.to_string(), price: dec(price), amount: dec(amount) }
}

#[test]
fn test_orderbook_trim() {
    let default_quantity = dec("10");
    let mut ob = Orderbook::new("");
    ob.insert(Side::Ask, dec("1"), default_quantity);
    ob.insert(Side::Ask, dec("2"), default_quantity);
    ob.trim(1);
    assert_eq!(ob.bid().len(), 0);
    assert_eq!(ob.ask().len(), 1);
    let one = dec("1");
    assert_eq!(ob.ask().first(), Some(PriceLevel { price: one, quantity: default_quantity }));
}

#[test]
fn test_agg_merge() {
    let default_quantity = dec("10");
    let mut ob1 = Orderbook::new("A");
    ob1.insert(Side::Ask, dec("1"), default_quantity);
    ob1.insert(Side::Ask, dec("2"), default_quantity);
    let mut ob2 = Orderbook::new("B");
    ob2.insert(Side::Ask, dec("1"), default_quantity);
    ob2.insert(Side::Ask, dec("3"), default_quantity);
    let mut agg = AggregatedOrderbook::new();
    agg.merge(&ob1);
    agg.merge(&ob2);
    let summary = agg.finalize(4);
    // no bids: the spread is 0.0
    assert_eq!(summary.top_of_book(), None);
    assert_eq!(
        summary.asks,
        vec![level("A", "1", "10"), level("B", "1", "10"), level("A", "2", "10"), level("B", "3", "10")]
    );
    assert_eq!(summary.bids.len(), 0);
}

#[test]
fn decimal_parse_normalizes() {
    let d = dec("1.50");
    assert!(!d.is_negative());
    assert_eq!(d.magnitude(), 15);
    assert_eq!(d.scale(), 1);
    assert_eq!(dec("1.0"), dec("1"));
    assert_eq!(dec("100"), Decimal::from_parts(false, 1, -2).unwrap());
    let n = dec("-0.25");
    assert!(n.is_negative());
    assert_eq!(n.magnitude(), 25);
    assert_eq!(n.scale(), 2);
    assert_eq!(dec("0.000"), Decimal::zero());
    assert!(dec("0").is_zero());
}

#[test]
fn decimal_parse_rejects_text() {
    assert_eq!(Decimal::parse("abc"), None);
    assert_eq!(Decimal::parse(""), None);
    assert_eq!(Decimal::parse("1.2.3"), None);
}

#[test]
fn decimal_compare_by_value() {
    assert_eq!(dec("1.0").compare(&dec("1")), Ordering::Equal);
    assert_eq!(dec("-2").compare(&dec("1")), Ordering::Less);
    assert_eq!(dec("1e2").compare(&dec("99")), Ordering::Greater);
    assert_eq!(dec("0.001").compare(&dec("0.01")), Ordering::Less);
    assert_eq!(dec("-0.5").compare(&dec("-0.05")), Ordering::Less);
    assert_eq!(dec("29738").compare(&dec("29737.99999")), Ordering::Greater);
    assert_eq!(dec("0").compare(&dec("-0.1")), Ordering::Greater);
}

#[test]
fn insert_zero_removes_price() {
    let mut ob = Orderbook::new("x");
    ob.insert(Side::Bid, dec("5"), dec("1"));
    ob.insert(Side::Bid, dec("6"), dec("2"));
    ob.insert(Side::Bid, dec("5"), dec("0"));
    assert_eq!(ob.bid().get(&dec("5")), None);
    assert_eq!(ob.bid().get(&dec("6")), Some(dec("2")));
    // zero on an absent price changes nothing
    ob.insert(Side::Bid, dec("7"), dec("0"));
    assert_eq!(ob.bid().len(), 1);
}

#[test]
fn insert_overwrites_and_orders() {
    let mut ob = Orderbook::new("x");
    ob.insert(Side::Ask, dec("3"), dec("1"));
    ob.insert(Side::Ask, dec("1"), dec("1"));
    ob.insert(Side::Ask, dec("2"), dec("1"));
    ob.insert(Side::Ask, dec("2.0"), dec("4"));
    let prices: Vec<Decimal> = ob.ask().levels().iter().map(|l| l.price).collect();
    assert_eq!(prices, vec![dec("1"), dec("2"), dec("3")]);
    assert_eq!(ob.ask().get(&dec("2")), Some(dec("4")));
    assert_eq!(ob.bid().len(), 0);
}

#[test]
fn trim_keeps_best_levels() {
    let mut asks = Orderbook::new("x");
    let mut bids = Orderbook::new("x");
    for p in ["1", "2", "3", "4", "5"] {
        asks.insert(Side::Ask, dec(p), dec("10"));
        bids.insert(Side::Bid, dec(p), dec("10"));
    }
    asks.trim(3);
    bids.trim(3);
    let ask_prices: Vec<Decimal> = asks.ask().levels().iter().map(|l| l.price).collect();
    let bid_prices: Vec<Decimal> = bids.bid().levels().iter().map(|l| l.price).collect();
    assert_eq!(ask_prices, vec![dec("1"), dec("2"), dec("3")]);
    assert_eq!(bid_prices, vec![dec("3"), dec("4"), dec("5")]);
    // trimming to more than there is keeps everything; to zero keeps nothing
    asks.trim(10);
    assert_eq!(asks.ask().len(), 3);
    asks.trim(0);
    assert_eq!(asks.ask().len(), 0);
}

#[test]
fn clear_keeps_ticker() {
    let mut ob = Orderbook::new("x");
    ob.insert(Side::Bid, dec("1"), dec("1"));
    ob.insert(Side::Ask, dec("2"), dec("1"));
    ob.set_ticker(dec("100"), dec("5"));
    ob.clear();
    assert_eq!(ob.bid().len(), 0);
    assert_eq!(ob.ask().len(), 0);
    assert_eq!(ob.last_price(), dec("100"));
    assert_eq!(ob.volume(), dec("5"));
}

#[test]
fn new_book_is_stamped_and_empty() {
    let ob = Orderbook::new("binance");
    assert_eq!(ob.name(), "binance");
    assert!(ob.timestamp() > 0);
    assert!(ob.volume().is_zero());
    assert!(ob.last_price().is_zero());
    let fixed = Orderbook::with_timestamp("b", 42);
    assert_eq!(fixed.timestamp(), 42);
}

fn book(name: &str, bids: &[(&str, &str)], asks: &[(&str, &str)]) -> Orderbook {
    let mut ob = Orderbook::new(name);
    for (p, q) in bids {
        ob.insert(Side::Bid, dec(p), dec(q));
    }
    for (p, q) in asks {
        ob.insert(Side::Ask, dec(p), dec(q));
    }
    ob
}

#[test]
fn finalize_orders_bids_down_and_asks_up() {
    let a = book("A", &[("10", "1"), ("12", "1"), ("11", "1")], &[("15", "1"), ("13", "1")]);
    let b = book("B", &[("11", "2"), ("9", "2")], &[("14", "2"), ("13", "2")]);
    let mut agg = AggregatedOrderbook::new();
    agg.merge(&a);
    agg.merge(&b);
    let s = agg.finalize(10);
    assert_eq!(
        s.bids,
        vec![
            level("A", "12", "1"),
            level("A", "11", "1"),
            level("B", "11", "2"),
            level("A", "10", "1"),
            level("B", "9", "2"),
        ]
    );
    assert_eq!(s.asks, vec![level("A", "13", "1"), level("B", "13", "2"), level("B", "14", "2"), level("A", "15", "1")]);
    for w in s.bids.windows(2) {
        assert_ne!(w[0].price.compare(&w[1].price), Ordering::Less);
    }
    for w in s.asks.windows(2) {
        assert_ne!(w[0].price.compare(&w[1].price), Ordering::Greater);
    }
}

#[test]
fn finalize_caps_rows_and_levels() {
    let mut agg = AggregatedOrderbook::new();
    for i in 0..12 {
        let name = format!("V{}", i);
        agg.merge(&book(&name, &[("100", "1"), ("99", "1")], &[("101", "1")]));
    }
    let s = agg.finalize(5);
    // twelve venues share the best bid: ten rows, all at 100
    assert_eq!(s.bids.len(), 10);
    assert!(s.bids.iter().all(|l| l.price == dec("100")));
    assert_eq!(s.bids[0].exchange, "V0");
    assert_eq!(s.bids[9].exchange, "V9");
    assert_eq!(s.asks.len(), 10);

    let mut agg = AggregatedOrderbook::new();
    agg.merge(&book("A", &[("1", "1"), ("2", "1"), ("3", "1")], &[]));
    let s = agg.finalize(2);
    // two price levels visited: 3 and 2
    assert_eq!(s.bids, vec![level("A", "3", "1"), level("A", "2", "1")]);
    let s = agg.finalize(0);
    assert_eq!(s.bids.len(), 0);
}

#[test]
fn top_of_book_gives_both_ends() {
    let mut agg = AggregatedOrderbook::new();
    agg.merge(&book("A", &[("99.5", "1")], &[("100.25", "3")]));
    let s: Summary = agg.finalize(10);
    assert_eq!(s.top_of_book(), Some((dec("100.25"), dec("99.5"))));
}

#[test]
fn merge_groups_by_price() {
    let mut agg = AggregatedOrderbook::new();
    agg.merge(&book("A", &[("1", "1")], &[]));
    agg.merge(&book("B", &[("1.0", "2"), ("2", "3")], &[]));
    let groups = agg.bid();
    assert_eq!(groups.len(), 2);
    assert_eq!(groups[0].price, dec("1"));
    assert_eq!(groups[0].entries.len(), 2);
    assert_eq!(groups[0].entries[0].exchange, "A");
    assert_eq!(groups[0].entries[1].exchange, "B");
    assert_eq!(groups[1].entries[0].quantity, dec("3"));
    assert_eq!(agg.ask().len(), 0);
}

#[test]
fn plain_decimal_text_reads_digits_and_scale() {
    let d = dec("0029737.675");
    assert_eq!(d.magnitude(), 29737675);
    assert_eq!(d.scale(), 3);
    assert_eq!(dec("340282366920938463463374607431768211455").magnitude(), u128::MAX);
    assert_eq!(Decimal::parse("340282366920938463463374607431768211456"), None);
}
