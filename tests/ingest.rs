use orderbook_aggregator::book::{Orderbook, Side};
use orderbook_aggregator::config::{default_three, default_true, ExchangeSetting, InnerConfig, LogLevel};
use orderbook_aggregator::decimal::Decimal;
use orderbook_aggregator::fanin::{stream_step, FanIn, Received, Status, StatusCode, StreamStep};
use orderbook_aggregator::ingest::{Exchange, Frame, FrameOutcome, IngestError, VenueParser};
use orderbook_aggregator::json::u64_from_text;
use orderbook_aggregator::restapi::{btcmarkets_orderbook, rest, RestVenue};
use orderbook_aggregator::wsapi::{is_plain_template, render_with, ws, Api, ApiError, ParserKind};
use orderbook_aggregator::venue::ParseError;

fn dec(s: &str) -> Decimal {
    Decimal::parse(s).unwrap()
}

fn setting(pair: &str, ws_api: bool, wait_secs: u64) -> ExchangeSetting {
    ExchangeSetting { pair: pair.to_string(), ws_api, wait_secs }
}

#[test]
fn test_subscribe_text() {
    let rendered = ws("binance").unwrap().subscribe_text("BTCUSDT", 20).unwrap();
    assert_eq!(rendered[0], r#"{"id": 1, "method": "SUBSCRIBE", "params": ["BTCUSDT@depth20@100ms"]}"#);
}

#[test]
fn subscribe_text_fills_every_template() {
    let rendered = ws("binance").unwrap().subscribe_text("BTCUSDT", 20).unwrap();
    assert_eq!(
        rendered,
        vec![
            r#"{"id": 1, "method": "SUBSCRIBE", "params": ["BTCUSDT@depth20@100ms"]}"#.to_string(),
            r#"{"id": 2, "method": "SUBSCRIBE", "params": ["BTCUSDT@ticker"]}"#.to_string(),
        ]
    );
    let bitstamp = ws("bitstamp").unwrap().subscribe_text("btcusd", 20).unwrap();
    assert_eq!(bitstamp, vec![r#"{"event":"bts:subscribe","data":{"channel":"order_book_btcusd"}}"#.to_string()]);
    let kraken = ws("kraken").unwrap().subscribe_text("XBT/USD", 20).unwrap();
    assert_eq!(
        kraken[0],
        r#"{"event":"subscribe","pair":["XBT/USD"], "subscription": {"name":"book","depth":25}}"#
    );
    assert_eq!(kraken[1], r#"{"event":"subscribe","pair":["XBT/USD"], "subscription": {"name":"ticker"}}"#);
}

#[test]
fn subscribe_text_errors() {
    let mut api: Api = ws("bitstamp").unwrap();
    api.subscribe_template = vec!["}{".to_string()];
    assert_eq!(api.subscribe_text("x", 1), Err(ApiError::MalformedTemplate));
    api.subscribe_template = vec!["{}{}{}".to_string()];
    assert_eq!(api.subscribe_text("x", 1), Err(ApiError::Render));
    api.subscribe_template = vec![];
    assert_eq!(api.subscribe_text("x", 1), Ok(vec![]));
}

#[test]
fn registry_lookups() {
    assert_eq!(ws("binance_futures").unwrap().endpoint, "wss://fstream.binance.com:9443/ws");
    assert_eq!(ws("kraken").unwrap().parser, ParserKind::Kraken);
    assert!(!ws("bitstamp").unwrap().render_url);
    assert_eq!(ws("bitstamp").unwrap().heartbeat, None);
    assert_eq!(ws("nasdaq").err(), Some(ApiError::NotSupported("nasdaq".to_string())));
    let r = rest("btcmarkets").unwrap();
    assert_eq!(r.endpoint, "https://api.btcmarkets.net");
    assert_eq!(r.venue, RestVenue::BtcMarkets);
    assert_eq!(rest("binance").err(), Some(ApiError::NotSupported("binance".to_string())));
    assert_eq!(btcmarkets_orderbook("BTC-AUD"), Err(ApiError::NotImplemented));
    assert_eq!(r.orderbook("BTC-AUD"), Err(ApiError::NotImplemented));
}

#[test]
fn templates_and_rendering() {
    assert!(is_plain_template("a{{b}}{}"));
    assert!(!is_plain_template("a{b}"));
    assert!(!is_plain_template("{"));
    assert_eq!(render_with("wss://x/{}", "a,b").unwrap(), "wss://x/a,b");
    assert_eq!(render_with("{x", "a"), Err(ApiError::MalformedTemplate));
}

#[test]
fn connect_plans_subscriptions() {
    let mut ex = Exchange::new("bitstamp");
    let plan = ex.connect(&vec![setting("btcusd", true, 0), setting("ethusd", true, 5)]).unwrap().unwrap();
    assert_eq!(plan.url, "wss://ws.bitstamp.net");
    assert_eq!(
        plan.subscriptions,
        vec![
            r#"{"event":"bts:subscribe","data":{"channel":"order_book_btcusd"}}"#.to_string(),
            r#"{"event":"bts:subscribe","data":{"channel":"order_book_ethusd"}}"#.to_string(),
        ]
    );
    assert_eq!(plan.parser, ParserKind::Bitstamp);
    assert_eq!(plan.heartbeat, None);
    assert_eq!(ex.wait_secs(), 1);
    assert!(ex.ws_api());
    assert_eq!(ex.level(), 10);
    assert_eq!(ex.first_pair().unwrap(), "btcusd");
}

#[test]
fn connect_rest_and_errors() {
    let mut ex = Exchange::new("btcmarkets");
    assert!(ex.connect(&vec![setting("BTC-AUD", false, 7)]).unwrap().is_none());
    assert_eq!(ex.wait_secs(), 7);
    assert!(!ex.ws_api());
    let mut none = Exchange::new("kraken");
    assert_eq!(none.connect(&vec![]).err(), Some(IngestError::NoPairs));
    let mut unknown = Exchange::new("nasdaq");
    assert_eq!(
        unknown.connect(&vec![setting("X", true, 3)]).err(),
        Some(IngestError::Api(ApiError::NotSupported("nasdaq".to_string())))
    );
}

#[test]
fn frames_become_books() {
    let mut ex = Exchange::new("bitstamp");
    let mut parser = VenueParser::new(ParserKind::Bitstamp);
    let frame = r#"{"event":"data","channel":"order_book_x","data":{"timestamp":"1","microtimestamp":"2",
        "bids":[["1","1"],["2","1"],["3","1"],["4","1"],["5","1"],["6","1"],["7","1"],["8","1"],["9","1"],["10","1"],["11","1"],["12","1"]],"asks":[]}}"#;
    match ex.next(&mut parser, Frame::Text(frame.to_string())) {
        FrameOutcome::Book(b) => {
            assert_eq!(b.bid().len(), 10);
            assert_eq!(b.bid().first().unwrap().price, dec("3"));
        }
        other => panic!("unexpected {:?}", other),
    }
    assert!(matches!(ex.next(&mut parser, Frame::Ping), FrameOutcome::Skip));
    assert!(matches!(ex.next(&mut parser, Frame::Pong), FrameOutcome::Skip));
    assert!(matches!(ex.next(&mut parser, Frame::Close), FrameOutcome::Closed));
    assert!(matches!(
        ex.next(&mut parser, Frame::Text("oops".to_string())),
        FrameOutcome::Invalid(IngestError::Parse(ParseError::InvalidJson))
    ));
    assert!(matches!(
        ex.next(&mut parser, Frame::Binary(vec![0xff, 0xfe])),
        FrameOutcome::Invalid(IngestError::InvalidUtf8)
    ));
}

#[test]
fn fragments_are_reassembled() {
    let mut ex = Exchange::new("kraken");
    let mut parser = VenueParser::new(ParserKind::Kraken);
    let whole = r#"[0,{"bs":[["100","2","t"]]},"book-25","XBT/USD"]"#.as_bytes();
    let (a, b) = whole.split_at(10);
    assert!(matches!(ex.next(&mut parser, Frame::Fragment(a.to_vec())), FrameOutcome::Skip));
    match ex.next(&mut parser, Frame::LastFragment(b.to_vec())) {
        FrameOutcome::Book(book) => assert_eq!(book.bid().get(&dec("100")), Some(dec("2"))),
        other => panic!("unexpected {:?}", other),
    }
    // the buffer starts over after the last fragment
    let msg = r#"[0,{"b":[["101","1","t"]]},"book-25","XBT/USD"]"#.as_bytes();
    match ex.next(&mut parser, Frame::Binary(msg.to_vec())) {
        FrameOutcome::Book(book) => assert_eq!(book.bid().len(), 2),
        other => panic!("unexpected {:?}", other),
    }
    match ex.next(&mut parser, Frame::LastFragment(msg.to_vec())) {
        FrameOutcome::Book(book) => assert_eq!(book.bid().len(), 2),
        other => panic!("unexpected {:?}", other),
    }
}

#[test]
fn fan_in_summarizes_latest_books() {
    let mut fan = FanIn::new();
    let mut a = Orderbook::new("A");
    a.insert(Side::Bid, dec("10"), dec("1"));
    a.insert(Side::Ask, dec("11"), dec("1"));
    let s = fan.update("A".to_string(), a);
    assert_eq!(s.top_of_book(), Some((dec("11"), dec("10"))));
    let mut b = Orderbook::new("B");
    b.insert(Side::Ask, dec("10.5"), dec("2"));
    let s = fan.update("B".to_string(), b);
    assert_eq!(s.asks.len(), 2);
    assert_eq!(s.asks[0].exchange, "B");
    // a newer book from A replaces the older one
    let mut a2 = Orderbook::new("A");
    a2.insert(Side::Bid, dec("9"), dec("1"));
    let s = fan.update("A".to_string(), a2);
    assert_eq!(s.bids.len(), 1);
    assert_eq!(s.bids[0].price, dec("9"));
    assert_eq!(s.asks.len(), 1);
}

#[test]
fn stream_policy() {
    assert!(matches!(stream_step(Received::Item(Ok(5u8))), StreamStep::Yield(Ok(5))));
    match stream_step::<u8>(Received::Lagged(3)) {
        StreamStep::Yield(Err(s)) => {
            assert_eq!(s.code, StatusCode::DeadlineExceeded);
            assert_eq!(s.message, "timeout");
        }
        other => panic!("unexpected {:?}", other),
    }
    assert!(matches!(stream_step::<u8>(Received::Closed), StreamStep::End));
    let aborted = Status { code: StatusCode::Aborted, message: "closed".to_string() };
    assert!(matches!(stream_step::<u8>(Received::Item(Err(aborted))), StreamStep::End));
    let bad = Status { code: StatusCode::InvalidArgument, message: "conversion".to_string() };
    assert!(matches!(stream_step::<u8>(Received::Item(Err(bad))), StreamStep::Yield(Err(_))));
}

#[test]
fn config_defaults() {
    assert!(default_true());
    assert_eq!(default_three(), 3);
    let c = InnerConfig::default();
    assert!(c.exchange_pair_map.is_empty());
    assert_eq!(c.server_addr.as_deref(), Some("127.0.0.1"));
    assert_eq!(c.bind_addr.as_deref(), Some("0.0.0.0"));
    assert_eq!(c.server_port, 50051);
    assert_eq!(c.log_path.as_deref(), Some("./test.log"));
    assert_eq!(c.log_level, LogLevel::Info);
    assert_eq!(LogLevel::Warning.to_level_filter(), log::LevelFilter::Warn);
    assert_eq!(LogLevel::Debug.to_level_filter(), log::LevelFilter::Debug);
    assert_eq!(LogLevel::Error.to_level_filter(), log::LevelFilter::Error);
    assert_eq!(LogLevel::Info.to_level_filter(), log::LevelFilter::Info);
}

#[test]
fn numbers_in_frames() {
    assert_eq!(u64_from_text("160"), Some(160));
    assert_eq!(u64_from_text("18446744073709551615"), Some(u64::MAX));
    assert_eq!(u64_from_text("18446744073709551616"), None);
    assert_eq!(u64_from_text("1.0"), None);
    assert_eq!(u64_from_text("-1"), None);
    assert_eq!(u64_from_text(""), None);
}

#[test]
fn subscribe_adds_pair_and_renders() {
    let mut ex = Exchange::new("bitstamp");
    let frames = ex.subscribe("btcusd").unwrap();
    assert_eq!(frames, vec![r#"{"event":"bts:subscribe","data":{"channel":"order_book_btcusd"}}"#.to_string()]);
    assert_eq!(ex.first_pair().unwrap(), "btcusd");
    let mut unknown = Exchange::new("nasdaq");
    assert!(unknown.subscribe("x").is_err());
}

#[test]
fn clear_drops_parser_state() {
    let ex = Exchange::new("kraken");
    let mut parser = VenueParser::new(ParserKind::Kraken);
    parser.parse(r#"[0,{"bs":[["1","1","t"]]},"book-25","A/B"]"#).unwrap();
    assert_eq!(ex.clear(&mut parser), Ok(()));
    let b = parser.parse(r#"[0,{"b":[["2","1","t"]]},"book-25","A/B"]"#).unwrap().unwrap();
    assert_eq!(b.bid().len(), 1);
    let unknown = Exchange::new("nasdaq");
    assert_eq!(
        unknown.clear(&mut parser),
        Err(IngestError::Api(ApiError::NotSupported("nasdaq".to_string())))
    );
}

#[test]
fn explicit_placeholders_render_by_index() {
    let mut api: Api = ws("bitstamp").unwrap();
    api.subscribe_template = vec![
        "{0}@depth{1}@100ms".to_string(),
        "{1}:{0}:{0}".to_string(),
        "{{\"pair\":\"{0}\"}}".to_string(),
        "only {1}".to_string(),
    ];
    assert_eq!(
        api.subscribe_text("BTCUSDT", 20).unwrap(),
        vec![
            "BTCUSDT@depth20@100ms".to_string(),
            "20:BTCUSDT:BTCUSDT".to_string(),
            "{\"pair\":\"BTCUSDT\"}".to_string(),
            "only 20".to_string(),
        ]
    );
    api.subscribe_template = vec!["{2}".to_string()];
    assert_eq!(api.subscribe_text("x", 1), Err(ApiError::Render));
    api.subscribe_template = vec!["{0}{}".to_string()];
    assert_eq!(api.subscribe_text("x", 1), Err(ApiError::MalformedTemplate));
    assert!(is_plain_template("{0}{1}"));
    assert!(!is_plain_template("{0}{}"));
    assert!(!is_plain_template("{a}"));
    assert!(!is_plain_template("{0"));
    assert_eq!(render_with("wss://x/{0}", "a,b").unwrap(), "wss://x/a,b");
}

#[test]
fn connect_succeeds_for_any_pair_text() {
    let mut ex = Exchange::new("kraken");
    let plan = ex.connect(&vec![setting("A=B", true, 3)]).unwrap().unwrap();
    assert_eq!(plan.subscriptions.len(), 2);
    assert!(plan.subscriptions[0].contains("A=B"));
}
