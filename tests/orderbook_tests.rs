use orderbook::book::{merge_orderbooks, sort_and_trim_levels, Level, OrderBook};
use orderbook::decimal::Decimal;
use orderbook::hub::{Aggregator, Exchange, FanOut, SubscriberQueue, SUBSCRIBER_CAPACITY};
use orderbook::parser::{book_from_value, level_from_entry, process_message};
use orderbook::session::{
    binance_subscribe_frame, bitstamp_subscribe_frame, is_binance_ack_text, is_bitstamp_ack,
    Session, SessionState, UpstreamError,
};

fn d(s: &str) -> Decimal {
    Decimal::parse(s).unwrap()
}

fn units(s: &str) -> i128 {
    d(s).units() as i128
}

fn lvl(exchange: &str, price: &str, amount: &str) -> Level {
    Level { exchange: exchange.to_string(), price: d(price), amount: d(amount) }
}

fn book(bids: Vec<Level>, asks: Vec<Level>, spread: &str) -> OrderBook {
    OrderBook { bids, asks, spread: units(spread) }
}

fn canonical_text(value: Decimal) -> String {
    let u = value.units();
    let one = 1_000_000_000_000_000_000u128;
    format!("{:018}.{:018}", u / one, u % one)
}

fn canonical_frame(b: &OrderBook) -> String {
    let side = |levels: &Vec<Level>| {
        let entries: Vec<String> = levels
            .iter()
            .map(|l| format!("[\"{}\",\"{}\"]", canonical_text(l.price), canonical_text(l.amount)))
            .collect();
        entries.join(",")
    };
    format!("{{\"bids\":[{}],\"asks\":[{}]}}", side(&b.bids), side(&b.asks))
}

#[test]
fn test_sort_and_trim_levels() {
    let levels = vec![
        lvl("exchange1", "10.0", "1.0"),
        lvl("exchange2", "9.5", "2.0"),
        lvl("exchange3", "11.0", "0.8"),
    ];

    let sorted_levels = sort_and_trim_levels(&levels, 2, true);

    assert_eq!(sorted_levels.len(), 2);
    assert_eq!(sorted_levels[0].price, d("9.5"));
    assert_eq!(sorted_levels[1].price, d("10.0"));
}

#[test]
fn test_process_message() {
    let message_text = r#"
        {
            "data": {
                "bids": [
                    [ "10.0", "1.0" ],
                    [ "9.5", "2.0" ]
                ],
                "asks": [
                    [ "11.0", "0.8" ],
                    [ "11.5", "0.7" ]
                ]
            }
        }
    "#;

    let exchange = "exchange1";
    let depth = 2;

    let orderbook = process_message(message_text, exchange, depth).unwrap();

    assert_eq!(orderbook.bids.len(), 2);

    assert_eq!(orderbook.bids[0].exchange, "exchange1");
    assert_eq!(orderbook.bids[0].price, d("10.0"));
    assert_eq!(orderbook.bids[0].amount, d("1.0"));

    assert_eq!(orderbook.bids[1].exchange, "exchange1");
    assert_eq!(orderbook.bids[1].price, d("9.5"));
    assert_eq!(orderbook.bids[1].amount, d("2.0"));

    assert_eq!(orderbook.asks.len(), 2);

    assert_eq!(orderbook.asks[0].exchange, "exchange1");
    assert_eq!(orderbook.asks[0].price, d("11.0"));
    assert_eq!(orderbook.asks[0].amount, d("0.8"));

    assert_eq!(orderbook.asks[1].exchange, "exchange1");
    assert_eq!(orderbook.asks[1].price, d("11.5"));
    assert_eq!(orderbook.asks[1].amount, d("0.7"));

    // The spread is the best ask less the best bid.
    assert_eq!(orderbook.spread, units("1.0"));
}

#[test]
fn test_merge_orderbooks() {
    let binance_orderbook = book(
        vec![lvl("binance", "10.0", "1.0"), lvl("binance", "9.5", "2.0")],
        vec![lvl("binance", "11.0", "0.8"), lvl("binance", "11.5", "0.7")],
        "0.5",
    );
    let bitstamp_orderbook = book(
        vec![lvl("bitstamp", "10.2", "0.9"), lvl("bitstamp", "9.8", "1.5")],
        vec![lvl("bitstamp", "11.2", "0.6"), lvl("bitstamp", "11.8", "0.4")],
        "0.6",
    );

    let depth = 3;

    let merged_orderbook = merge_orderbooks(&binance_orderbook, &bitstamp_orderbook, depth);

    assert_eq!(merged_orderbook.bids.len(), 3);
    assert_eq!(merged_orderbook.asks.len(), 3);

    assert_eq!(merged_orderbook.bids[0].exchange, "bitstamp");
    assert_eq!(merged_orderbook.bids[0].price, d("10.2"));
    assert_eq!(merged_orderbook.bids[0].amount, d("0.9"));

    assert_eq!(merged_orderbook.bids[1].exchange, "binance");
    assert_eq!(merged_orderbook.bids[1].price, d("10.0"));
    assert_eq!(merged_orderbook.bids[1].amount, d("1.0"));

    assert_eq!(merged_orderbook.bids[2].exchange, "bitstamp");
    assert_eq!(merged_orderbook.bids[2].price, d("9.8"));
    assert_eq!(merged_orderbook.bids[2].amount, d("1.5"));

    assert_eq!(merged_orderbook.asks[0].exchange, "binance");
    assert_eq!(merged_orderbook.asks[0].price, d("11.0"));
    assert_eq!(merged_orderbook.asks[0].amount, d("0.8"));

    assert_eq!(merged_orderbook.asks[1].exchange, "bitstamp");
    assert_eq!(merged_orderbook.asks[1].price, d("11.2"));
    assert_eq!(merged_orderbook.asks[1].amount, d("0.6"));

    assert_eq!(merged_orderbook.asks[2].exchange, "binance");
    assert_eq!(merged_orderbook.asks[2].price, d("11.5"));
    assert_eq!(merged_orderbook.asks[2].amount, d("0.7"));
}

#[test]
fn single_exchange_parse() {
    let text = r#"{"bids":[["10.0","1.0"],["9.5","2.0"]],"asks":[["11.0","0.8"],["11.5","0.7"]]}"#;
    let b = process_message(text, "binance", 2).unwrap();
    let expected = book(
        vec![lvl("binance", "10.0", "1.0"), lvl("binance", "9.5", "2.0")],
        vec![lvl("binance", "11.0", "0.8"), lvl("binance", "11.5", "0.7")],
        "1.0",
    );
    assert_eq!(b, expected);
}

#[test]
fn bitstamp_envelope() {
    let text = r#"{"data":{"bids":[["10.0","1.0"]],"asks":[["11.0","0.8"]]}}"#;
    let b = process_message(text, "bitstamp", 5).unwrap();
    assert_eq!(b.bids, vec![lvl("bitstamp", "10.0", "1.0")]);
    assert_eq!(b.asks, vec![lvl("bitstamp", "11.0", "0.8")]);
    assert_eq!(b.spread, units("1.0"));
    assert!(b.bids.iter().chain(b.asks.iter()).all(|l| l.exchange == "bitstamp"));
}

#[test]
fn tie_break_by_amount() {
    let levels = vec![lvl("binance", "10.0", "1.0"), lvl("binance", "10.0", "2.0")];
    let sorted = sort_and_trim_levels(&levels, 10, false);
    assert_eq!(sorted, vec![lvl("binance", "10.0", "2.0"), lvl("binance", "10.0", "1.0")]);
    let sorted_asks = sort_and_trim_levels(&levels, 10, true);
    assert_eq!(sorted_asks, vec![lvl("binance", "10.0", "2.0"), lvl("binance", "10.0", "1.0")]);
}

#[test]
fn full_ties_keep_input_order() {
    let levels = vec![lvl("a", "10.0", "1.0"), lvl("b", "10.0", "1.0"), lvl("c", "11.0", "1.0")];
    let sorted = sort_and_trim_levels(&levels, 10, false);
    assert_eq!(sorted, vec![lvl("c", "11.0", "1.0"), lvl("a", "10.0", "1.0"), lvl("b", "10.0", "1.0")]);
}

#[test]
fn merge_with_cross() {
    let binance = process_message(r#"{"bids":[["10.2","1.0"]],"asks":[["10.5","1.0"]]}"#, "binance", 5).unwrap();
    let bitstamp =
        process_message(r#"{"data":{"bids":[["9.9","1.0"]],"asks":[["10.0","1.0"]]}}"#, "bitstamp", 5)
            .unwrap();
    let m = merge_orderbooks(&binance, &bitstamp, 5);
    assert_eq!(m.bids[0].price, d("10.2"));
    assert_eq!(m.asks[0].price, d("10.0"));
    assert_eq!(m.spread, -units("0.2"));
    assert!(m.spread < 0);
}

#[test]
fn depth_truncation_on_merge() {
    let binance = book(vec![lvl("binance", "10.0", "1.0"), lvl("binance", "9.5", "1.0")], vec![], "0");
    let bitstamp = book(vec![lvl("bitstamp", "10.2", "1.0"), lvl("bitstamp", "9.8", "1.0")], vec![], "0");
    let m = merge_orderbooks(&binance, &bitstamp, 3);
    let got: Vec<(Decimal, &str)> = m.bids.iter().map(|l| (l.price, l.exchange.as_str())).collect();
    assert_eq!(got, vec![(d("10.2"), "bitstamp"), (d("10.0"), "binance"), (d("9.8"), "bitstamp")]);
    assert!(m.asks.is_empty());
    assert_eq!(m.spread, 0);
}

#[test]
fn subscriber_overflow() {
    let mut fan = FanOut::new();
    let slow = fan.subscribe();
    let fast = fan.subscribe();
    let mut received_fast = 0;
    let mut dropped_total = 0;
    for i in 0..200u128 {
        let snapshot = book(vec![Level { exchange: "binance".to_string(), price: Decimal::from_units(i + 1).unwrap(), amount: d("1") }], vec![], "0");
        dropped_total += fan.publish(&snapshot);
        let got = fan.take(fast).unwrap();
        assert_eq!(got.bids[0].price.units(), i + 1);
        received_fast += 1;
    }
    assert_eq!(received_fast, 200);
    assert_eq!(dropped_total, 100);
    let mut received_slow = 0u128;
    while let Some(b) = fan.take(slow) {
        received_slow += 1;
        // The oldest snapshots are kept; the newest were dropped.
        assert_eq!(b.bids[0].price.units(), received_slow);
    }
    assert_eq!(received_slow, SUBSCRIBER_CAPACITY as u128);
}

#[test]
fn queue_is_fifo_and_bounded() {
    let mut q = SubscriberQueue::new(2);
    assert!(q.offer(book(vec![], vec![], "1")));
    assert!(q.offer(book(vec![], vec![], "2")));
    assert!(!q.offer(book(vec![], vec![], "3")));
    assert_eq!(q.len(), 2);
    assert_eq!(q.take().unwrap().spread, units("1"));
    assert_eq!(q.take().unwrap().spread, units("2"));
    assert!(q.take().is_none());
}

#[test]
fn parse_reserialize_parse() {
    let text = r#"{"bids":[["10.0","1.0"],["10.0","3.5"],["9.5","2.0"],["9.9","0"]],"asks":[["11.0","0.8"],["10.9","0.00000001"]],"lastUpdateId":7}"#;
    let first = process_message(text, "binance", 10).unwrap();
    let again = process_message(&canonical_frame(&first), "binance", 10).unwrap();
    assert_eq!(first, again);
}

#[test]
fn merge_with_empty_and_itself() {
    let b = book(
        vec![lvl("x", "9.0", "1.0"), lvl("y", "10.0", "1.0")],
        vec![lvl("x", "12.0", "1.0"), lvl("y", "11.0", "2.0")],
        "0",
    );
    let empty = OrderBook::new();
    let m = merge_orderbooks(&b, &empty, 5);
    assert_eq!(m.bids, sort_and_trim_levels(&b.bids, 5, false));
    assert_eq!(m.asks, sort_and_trim_levels(&b.asks, 5, true));
    assert_eq!(m.spread, units("1.0"));
    let twice = merge_orderbooks(&b, &b, 10);
    assert_eq!(
        twice.bids,
        vec![lvl("y", "10.0", "1.0"), lvl("y", "10.0", "1.0"), lvl("x", "9.0", "1.0"), lvl("x", "9.0", "1.0")]
    );
    assert_eq!(twice.asks.len(), 4);
}

#[test]
fn invariants_on_parsed_book() {
    let text = r#"{"bids":[["1","1"],["3","1"],["2","5"],["2","7"]],"asks":[["9","1"],["4","1"],["4","2"],["8","1"]]}"#;
    let b = process_message(text, "binance", 3).unwrap();
    assert!(b.bids.len() <= 3 && b.asks.len() <= 3);
    for w in b.bids.windows(2) {
        assert!(w[0].price.units() >= w[1].price.units());
    }
    assert_eq!(b.bids.iter().map(|l| l.price.units()).collect::<Vec<_>>(), vec![d("3").units(), d("2").units(), d("2").units()]);
    assert_eq!(b.bids[1].amount, d("7"));
    assert_eq!(b.asks[0].amount, d("2"));
    assert_eq!(b.spread, units("4") - units("3"));
}

#[test]
fn frames_without_book_are_skipped() {
    assert!(process_message("not json", "binance", 5).is_none());
    assert!(process_message(r#"{"result":null,"id":1}"#, "binance", 5).is_none());
    assert!(process_message(r#"{"bids":[]}"#, "binance", 5).is_none());
    assert!(process_message(r#"{"bids":{},"asks":[]}"#, "binance", 5).is_none());
    assert!(process_message(r#"{"event":"bts:subscription_succeeded","channel":"detail_order_book_btcusd","data":{}}"#, "bitstamp", 5).is_none());
}

#[test]
fn empty_sides_give_zero_spread() {
    let b = process_message(r#"{"bids":[],"asks":[["1.0","0"],["bad","1"],[1.0,"1"],["1","1","1"]]}"#, "binance", 5).unwrap();
    assert!(b.bids.is_empty());
    assert!(b.asks.is_empty());
    assert_eq!(b.spread, 0);
    let one_side = process_message(r#"{"bids":[["5","1"]],"asks":[]}"#, "binance", 5).unwrap();
    assert_eq!(one_side.bids.len(), 1);
    assert_eq!(one_side.spread, 0);
}

#[test]
fn data_that_is_not_an_object_is_not_descended() {
    let b = process_message(r#"{"data":"x","bids":[["2","1"]],"asks":[["3","1"]]}"#, "binance", 5).unwrap();
    assert_eq!(b.spread, units("1"));
}

#[test]
fn depth_zero_gives_empty_sides() {
    let b = process_message(r#"{"bids":[["2","1"]],"asks":[["3","1"]]}"#, "binance", 0).unwrap();
    assert!(b.bids.is_empty() && b.asks.is_empty());
    assert_eq!(b.spread, 0);
}

#[test]
fn decimal_literals() {
    assert_eq!(d("1.5").units(), 1_500_000_000_000_000_000);
    assert_eq!(d(".5").units(), 500_000_000_000_000_000);
    assert_eq!(d("5.").units(), 5_000_000_000_000_000_000);
    assert_eq!(d("0.06781000").units(), 67_810_000_000_000_000);
    assert_eq!(d("000000000000000012").units(), 12_000_000_000_000_000_000);
    assert_eq!(d("999999999999999999.999999999999999999").units(), 999_999_999_999_999_999_999_999_999_999_999_999);
    assert!(Decimal::parse("").is_none());
    assert!(Decimal::parse(".").is_none());
    assert!(Decimal::parse("1.2.3").is_none());
    assert!(Decimal::parse("-1").is_none());
    assert!(Decimal::parse("1e5").is_none());
    assert!(Decimal::parse("NaN").is_none());
    assert!(Decimal::parse("1234567890123456789").is_none());
    assert!(Decimal::parse("0.1234567890123456789").is_none());
    assert!(Decimal::from_units(1_000_000_000_000_000_000_000_000_000_000_000_000).is_none());
    assert_eq!(Decimal::from_units(7).unwrap().units(), 7);
    assert!(Decimal::zero().is_zero());
}

#[test]
fn entry_parsing() {
    let v: serde_json::Value = serde_json::from_str(r#"["10.5","2"]"#).unwrap();
    let l = level_from_entry(&v, "binance").unwrap();
    assert_eq!(l, lvl("binance", "10.5", "2"));
    let bad: serde_json::Value = serde_json::from_str(r#"{"0":"1","1":"2"}"#).unwrap();
    assert!(level_from_entry(&bad, "binance").is_none());
    let frame: serde_json::Value = serde_json::from_str(r#"{"data":{"bids":[["1","1"]],"asks":[]}}"#).unwrap();
    let b = book_from_value(&frame, "bitstamp", 1).unwrap();
    assert_eq!(b.bids, vec![lvl("bitstamp", "1", "1")]);
}

#[test]
fn subscribe_frames() {
    assert_eq!(
        binance_subscribe_frame("BTCUSDT", 10),
        r#"{"method":"SUBSCRIBE","params":["btcusdt@depth10"],"id":1}"#
    );
    assert_eq!(binance_subscribe_frame("ethbtc", 5), r#"{"method":"SUBSCRIBE","params":["ethbtc@depth5"],"id":1}"#);
    assert_eq!(
        bitstamp_subscribe_frame("BtcUsd"),
        r#"{"event":"bts:subscribe","data":{"channel":"detail_order_book_btcusd"}}"#
    );
}

#[test]
fn acknowledgements() {
    assert!(is_binance_ack_text(r#"{"result":null,"id":1}"#));
    assert!(is_binance_ack_text(r#"{"id":1}"#));
    assert!(!is_binance_ack_text(r#"{"result":null,"id":2}"#));
    assert!(!is_binance_ack_text(r#"{"result":"x","id":1}"#));
    assert!(!is_binance_ack_text("garbage"));
    assert!(is_bitstamp_ack(
        r#"{"event":"bts:subscription_succeeded","channel":"detail_order_book_btcusd","data":{}}"#,
        "BTCUSD"
    ));
    assert!(!is_bitstamp_ack(
        r#"{"event":"bts:subscription_succeeded","channel":"detail_order_book_ethbtc","data":{}}"#,
        "btcusd"
    ));
}

#[test]
fn session_happy_path() {
    let mut s = Session::new(Exchange::Binance, "ETHBTC", 10);
    assert_eq!(s.state(), SessionState::Disconnected);
    assert_eq!(s.url(), "wss://stream.binance.com:9443/ws");
    assert!(s.start_dial());
    let frame = s.on_dialed(true).unwrap();
    assert_eq!(frame, r#"{"method":"SUBSCRIBE","params":["ethbtc@depth10"],"id":1}"#);
    assert_eq!(s.state(), SessionState::Handshaking);
    assert_eq!(s.on_handshake(Some(r#"{"result":null,"id":1}"#)), Ok(()));
    assert_eq!(s.state(), SessionState::Streaming);
    let b = s.on_frame(r#"{"bids":[["1","1"]],"asks":[["2","1"]]}"#).unwrap();
    assert_eq!(b.bids[0].exchange, "binance");
    assert!(s.on_frame("{}").is_none());
    assert_eq!(s.on_ended(true), UpstreamError::UpstreamClosed);
    assert_eq!(s.state(), SessionState::Closed);
    assert!(s.reset());
    assert_eq!(s.state(), SessionState::Disconnected);
}

#[test]
fn session_errors() {
    let mut s = Session::new(Exchange::Bitstamp, "btcusd", 10);
    assert_eq!(s.url(), "wss://ws.bitstamp.net/");
    assert_eq!(s.on_dialed(true), Err(UpstreamError::UpstreamUnavailable));
    assert!(s.start_dial());
    assert_eq!(s.on_dialed(false), Err(UpstreamError::UpstreamUnavailable));
    assert_eq!(s.state(), SessionState::Disconnected);
    assert!(s.start_dial());
    assert_eq!(
        s.on_dialed(true).unwrap(),
        r#"{"event":"bts:subscribe","data":{"channel":"detail_order_book_btcusd"}}"#
    );
    assert_eq!(s.on_handshake(Some("{}")), Err(UpstreamError::HandshakeFailed));
    assert_eq!(s.state(), SessionState::Errored);
    assert!(s.on_frame(r#"{"bids":[],"asks":[]}"#).is_none());
    assert_eq!(s.on_ended(false), UpstreamError::UpstreamProtocol);
    assert!(s.reset());
    assert!(s.start_dial());
    assert!(s.on_dialed(true).is_ok());
    assert_eq!(s.on_handshake(None), Err(UpstreamError::HandshakeFailed));
}

#[test]
fn aggregator_publishes_merged_books() {
    let mut hub = Aggregator::new(2);
    assert!(hub.on_frame(Exchange::Binance, r#"{"result":null,"id":1}"#).is_none());
    let m1 = hub.on_frame(Exchange::Binance, r#"{"bids":[["10.0","1"]],"asks":[["11.0","1"]]}"#).unwrap();
    assert_eq!(m1.bids.len(), 1);
    assert_eq!(m1.spread, units("1"));
    let m2 = hub
        .on_frame(Exchange::Bitstamp, r#"{"data":{"bids":[["10.5","1"]],"asks":[["10.8","1"]]}}"#)
        .unwrap();
    assert_eq!(m2.bids[0].exchange, "bitstamp");
    assert_eq!(m2.asks[0].price, d("10.8"));
    assert_eq!(m2.spread, units("0.3"));
    assert_eq!(hub.consolidated(), m2);
    let m3 = hub.on_snapshot(Exchange::Binance, OrderBook::new());
    assert_eq!(m3.bids, vec![lvl("bitstamp", "10.5", "1")]);
    assert_eq!(Exchange::Binance.tag(), "binance");
    assert_eq!(Exchange::Bitstamp.tag(), "bitstamp");
    assert_eq!(hub.depth(), 2);
}

#[test]
fn unsubscribed_queues_receive_nothing() {
    let mut fan = FanOut::new();
    let a = fan.subscribe();
    let b = fan.subscribe();
    assert_eq!((a, b), (0, 1));
    fan.unsubscribe(a);
    assert_eq!(fan.subscribers(), 1);
    assert_eq!(fan.publish(&OrderBook::new()), 0);
    assert!(fan.take(0).is_some());
    assert!(fan.take(0).is_none());
}
