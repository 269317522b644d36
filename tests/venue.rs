use orderbook_aggregator::book::{Orderbook, Side};
use orderbook_aggregator::decimal::Decimal;
use orderbook_aggregator::ingest::VenueParser;
use orderbook_aggregator::wsapi::{ws, ParserKind};
use orderbook_aggregator::venue::{bitstamp_parser, BinanceParser, KrakenParser, ParseError};

fn dec(s: &str) -> Decimal {
    Decimal::parse(s).unwrap()
}

fn binance_parser() -> VenueParser {
    VenueParser::new(ws("binance").unwrap().parser)
}

#[test]
fn test_binance_parse() {
    let mut parser = binance_parser();
    // subscription response: nothing to emit
    let out = parser.parse(r#"{"id": 1, "result": null}"#).unwrap();
    assert_eq!(out, None);

    // normal event
    let out = parser.parse(r#"{"lastUpdateId": 160, "bids":[["0.01", "0.2"]], "asks": []}"#).unwrap();
    let mut ob = Orderbook::new("binance");
    ob.insert(Side::Bid, dec("0.01"), dec("0.2"));
    if let Some(o) = out.as_ref() {
        ob.set_timestamp(o.timestamp());
    }
    assert_eq!(out, Some(ob));
}

#[test]
fn test_bitstamp_parse() {
    let mut parser = VenueParser::new(ws("bitstamp").unwrap().parser);
    // subscription response
    let out = parser
        .parse(r#"{"event": "bts:subscription_succeeded", "channel": "order_book_btcusd", "data": {}}"#)
        .unwrap();
    assert_eq!(out, None);

    // normal event
    let out = parser
        .parse(
            r#"{"data":{
                "timestamp":"1691595437",
                "microtimestamp":"1691595437334962",
                "bids":[],
                "asks":[["29737","0.67548438"],["29738","0.67255217"]]
            },"channel":"order_book_btcusd","event":"data"}"#,
        )
        .unwrap();
    let mut ob = Orderbook::new("bitstamp");
    ob.insert(Side::Ask, dec("29737"), dec("0.67548438"));
    ob.insert(Side::Ask, dec("29738"), dec("0.67255217"));
    if let Some(o) = out.as_ref() {
        ob.set_timestamp(o.timestamp());
    }
    assert_eq!(out, Some(ob));
}

#[test]
fn binance_snapshot_then_ticker() {
    let mut p = BinanceParser::new();
    p.parse(r#"{"lastUpdateId":160,"bids":[["0.01","0.2"]],"asks":[]}"#).unwrap();
    let book = p.parse(r#"{"e":"24hrTicker","c":"100","v":"5","s":"BTCUSDT"}"#).unwrap().unwrap();
    assert_eq!(book.bid().len(), 1);
    assert_eq!(book.bid().get(&dec("0.01")), Some(dec("0.2")));
    assert_eq!(book.ask().len(), 0);
    assert_eq!(book.last_price(), dec("100"));
    assert_eq!(book.volume(), dec("5"));
    assert_eq!(book.name(), "binance");
}

#[test]
fn binance_ack_changes_nothing() {
    let mut p = BinanceParser::new();
    let first = p.parse(r#"{"lastUpdateId":7,"bids":[["1","2"]],"asks":[["3","4"]]}"#).unwrap().unwrap();
    assert_eq!(p.parse(r#"{"id":1,"result":null}"#).unwrap(), None);
    // a depth replaces both sides, keeping the ticker
    p.parse(r#"{"e":"24hrTicker","c":"9","v":"8","s":"X"}"#).unwrap();
    let next = p.parse(r#"{"lastUpdateId":8,"bids":[],"asks":[["5","6"]]}"#).unwrap().unwrap();
    assert_eq!(first.bid().len(), 1);
    assert_eq!(next.bid().len(), 0);
    assert_eq!(next.ask().get(&dec("5")), Some(dec("6")));
    assert_eq!(next.last_price(), dec("9"));
}

#[test]
fn binance_errors() {
    let mut p = BinanceParser::new();
    assert_eq!(p.parse("not json"), Err(ParseError::InvalidJson));
    assert_eq!(p.parse(r#"{"lastUpdateId":5,"result":[],"bids":[]}"#), Err(ParseError::ResultNotNull));
    // a non-null result with no depth is an error, not an acknowledgement
    assert_eq!(p.parse(r#"{"id":1,"result":["btcusdt@depth"]}"#), Err(ParseError::ResultNotNull));
    assert_eq!(p.parse(r#"{"id":1,"result":null}"#), Ok(None));
    assert_eq!(p.parse(r#"{"lastUpdateId":5,"bids":[["x","1"]]}"#), Err(ParseError::InvalidNumber));
    assert_eq!(p.parse(r#"{"lastUpdateId":5,"bids":[["1"]]}"#), Err(ParseError::Schema));
    assert_eq!(p.parse(r#"{"lastUpdateId":-5,"bids":[["1","1"]]}"#), Err(ParseError::Schema));
    assert_eq!(p.parse(r#"{"e":"24hrTicker","c":"1","v":"2"}"#), Err(ParseError::Schema));
    assert_eq!(p.parse(r#"{"e":"24hrTicker","c":"one","v":"2","s":"X"}"#), Err(ParseError::InvalidNumber));
    // nothing was accumulated by the failures
    p.clear();
    assert_eq!(p.parse(r#"{"id":3}"#), Ok(None));
}

#[test]
fn bitstamp_errors() {
    assert_eq!(bitstamp_parser("{"), Err(ParseError::InvalidJson));
    assert_eq!(bitstamp_parser(r#"{"event":"data","channel":"order_book_x"}"#), Err(ParseError::Schema));
    assert_eq!(
        bitstamp_parser(r#"{"event":"data","channel":"live_trades_x","data":{}}"#),
        Err(ParseError::UnexpectedChannel)
    );
    assert_eq!(
        bitstamp_parser(
            r#"{"event":"data","channel":"order_book_x","data":{"bids":[["a","1"]],"asks":[],"timestamp":"1","microtimestamp":"2"}}"#
        ),
        Err(ParseError::InvalidNumber)
    );
    assert_eq!(
        bitstamp_parser(r#"{"event":"data","channel":"order_book_x","data":{"bids":[],"asks":[]}}"#),
        Err(ParseError::Schema)
    );
    assert_eq!(bitstamp_parser(r#"{"event":"bts:request_reconnect","channel":"","data":null}"#), Ok(None));
    // quantities below zero are not figures a book can hold
    assert_eq!(
        bitstamp_parser(
            r#"{"event":"data","channel":"order_book_x","data":{"bids":[["1","-2"]],"asks":[],"timestamp":"1","microtimestamp":"2"}}"#
        ),
        Err(ParseError::InvalidNumber)
    );
}

#[test]
fn snapshot_then_trim_matches_direct_inserts() {
    let frame = r#"{"event":"data","channel":"order_book_btcusd","data":{"timestamp":"1","microtimestamp":"2",
        "bids":[["10","1"],["12","2"],["11","3"],["9","4"]],"asks":[["14","1"],["13","2"],["15","0"]]}}"#;
    let mut parsed = bitstamp_parser(frame).unwrap().unwrap();
    let mut direct = Orderbook::new("bitstamp");
    for (p, q) in [("10", "1"), ("12", "2"), ("11", "3"), ("9", "4")] {
        direct.insert(Side::Bid, dec(p), dec(q));
    }
    for (p, q) in [("14", "1"), ("13", "2"), ("15", "0")] {
        direct.insert(Side::Ask, dec(p), dec(q));
    }
    parsed.trim(2);
    direct.trim(2);
    direct.set_timestamp(parsed.timestamp());
    assert_eq!(parsed, direct);
    let bids: Vec<Decimal> = parsed.bid().levels().iter().map(|l| l.price).collect();
    assert_eq!(bids, vec![dec("11"), dec("12")]);
}

#[test]
fn kraken_snapshot_then_zero_delta() {
    let mut k = KrakenParser::new();
    let snap = k
        .parse(r#"[0,{"as":[["100","5","1.1"],["101","7","1.2"]],"bs":[["99","1","1.3"]]},"book-25","XBT/USD"]"#)
        .unwrap()
        .unwrap();
    assert_eq!(snap.ask().len(), 2);
    assert_eq!(snap.name(), "kraken");
    let book = k.parse(r#"[0,{"a":[["100","0","1.4"]]},"book-25","XBT/USD"]"#).unwrap().unwrap();
    assert_eq!(book.ask().get(&dec("100")), None);
    assert_eq!(book.ask().get(&dec("101")), Some(dec("7")));
    assert_eq!(book.bid().get(&dec("99")), Some(dec("1")));
}

#[test]
fn kraken_books_by_pair_and_ticker() {
    let mut k = KrakenParser::new();
    k.parse(r#"[1,{"bs":[["1","1","t"]]},"book-25","A/B"]"#).unwrap();
    k.parse(r#"[2,{"bs":[["2","2","t"]]},"book-25","C/D"]"#).unwrap();
    let t = k.parse(r#"[3,{"c":["50.5","0.1"],"v":["10","20"]},"ticker","A/B"]"#).unwrap().unwrap();
    assert_eq!(t.last_price(), dec("50.5"));
    assert_eq!(t.volume(), dec("20"));
    assert_eq!(t.bid().get(&dec("1")), Some(dec("1")));
    // a new snapshot replaces both sides of its pair only
    let c = k.parse(r#"[2,{"as":[["3","3","t"]]},"book-25","C/D"]"#).unwrap().unwrap();
    assert_eq!(c.bid().len(), 0);
    assert_eq!(c.ask().len(), 1);
    // frames opening with a brace are skipped; unknown channels are ignored
    assert_eq!(k.parse(r#"{"event":"heartbeat"}"#), Ok(None));
    assert_eq!(k.parse(r#"[4,{},"spread","A/B"]"#), Ok(None));
    k.clear();
    let fresh = k.parse(r#"[0,{"b":[["5","1","t"]]},"book-25","A/B"]"#).unwrap().unwrap();
    assert_eq!(fresh.bid().len(), 1);
    assert!(fresh.last_price().is_zero());
}

#[test]
fn kraken_keeps_depth() {
    let mut k = KrakenParser::new();
    let mut levels = Vec::new();
    for i in 1..=30 {
        levels.push(format!(r#"["{}","1","t"]"#, i));
    }
    let frame = format!(r#"[0,{{"bs":[{}],"as":[{}]}},"book-25","X/Y"]"#, levels.join(","), levels.join(","));
    let b = k.parse(&frame).unwrap().unwrap();
    assert_eq!(b.bid().len(), 25);
    assert_eq!(b.ask().len(), 25);
    assert_eq!(b.bid().first().unwrap().price, dec("6"));
    assert_eq!(b.ask().last().unwrap().price, dec("25"));
}

#[test]
fn kraken_errors() {
    let mut k = KrakenParser::new();
    assert_eq!(k.parse(""), Err(ParseError::InvalidJson));
    assert_eq!(k.parse("[1,2]"), Err(ParseError::Schema));
    assert_eq!(k.parse(r#"[1,{},3,"A/B"]"#), Err(ParseError::Schema));
    assert_eq!(k.parse(r#"[1,{"b":[["1"]]},"book-10","A/B"]"#), Err(ParseError::Schema));
    assert_eq!(k.parse(r#"[1,{"bs":[["1","2"]]},"book-10","A/B"]"#), Err(ParseError::Schema));
    assert_eq!(k.parse(r#"[1,{"a":[["x","2"]]},"book-10","A/B"]"#), Err(ParseError::InvalidNumber));
    assert_eq!(k.parse(r#"[1,{"v":["1","2"]},"ticker","A/B"]"#), Err(ParseError::InvalidNumber));
}

#[test]
fn venue_parser_dispatch_and_clear() {
    let mut p = VenueParser::new(ParserKind::Kraken);
    p.parse(r#"[0,{"bs":[["1","1","t"]]},"book-25","A/B"]"#).unwrap();
    p.clear();
    let b = p.parse(r#"[0,{"b":[["2","1","t"]]},"book-25","A/B"]"#).unwrap().unwrap();
    assert_eq!(b.bid().len(), 1);
    let mut q = VenueParser::new(ParserKind::Binance);
    q.parse(r#"{"lastUpdateId":1,"bids":[["1","1"]]}"#).unwrap();
    q.clear();
    let t = q.parse(r#"{"e":"24hrTicker","c":"1","v":"2","s":"X"}"#).unwrap().unwrap();
    assert_eq!(t.bid().len(), 0);
}

#[test]
fn binance_and_kraken_snapshots_match_direct_inserts() {
    let mut b = BinanceParser::new();
    let mut parsed = b.parse(r#"{"lastUpdateId":9,"bids":[["1","1"],["3","3"],["2","2"]],"asks":[["5","1"],["4","1"]]}"#)
        .unwrap()
        .unwrap();
    let mut k = KrakenParser::new();
    let mut kparsed = k
        .parse(r#"[0,{"bs":[["1","1","t"],["3","3","t"],["2","2","t"]],"as":[["5","1","t"],["4","1","t"]]},"book-25","P/Q"]"#)
        .unwrap()
        .unwrap();
    let mut direct = Orderbook::new("binance");
    let mut kdirect = Orderbook::new("kraken");
    for (p, q) in [("1", "1"), ("3", "3"), ("2", "2")] {
        direct.insert(Side::Bid, dec(p), dec(q));
        kdirect.insert(Side::Bid, dec(p), dec(q));
    }
    for (p, q) in [("5", "1"), ("4", "1")] {
        direct.insert(Side::Ask, dec(p), dec(q));
        kdirect.insert(Side::Ask, dec(p), dec(q));
    }
    for ob in [&mut parsed, &mut direct, &mut kparsed, &mut kdirect] {
        ob.trim(2);
    }
    direct.set_timestamp(parsed.timestamp());
    kdirect.set_timestamp(kparsed.timestamp());
    assert_eq!(parsed, direct);
    assert_eq!(kparsed, kdirect);
}
