use hl_blockscope::double::Double;
use hl_blockscope::feeds::{Ev, Source};
use hl_blockscope::json::{as_array, as_str, as_u64, elem, get, read_bytes, read_text, Json};
use hl_blockscope::wire::{f, read_message, trade_event, Stamp, Wire, WireQuote, WireTrade};

fn quote(source: Source, text: &str) -> Option<WireQuote> {
    let mut ws = read_message(source, text);
    assert!(ws.len() <= 1);
    match ws.pop() {
        Some(Wire::Quote(q)) => Some(q),
        Some(Wire::Trade(_)) => panic!("a trade"),
        None => None,
    }
}

fn price(p: &Option<String>) -> f64 {
    p.as_ref().and_then(|s| s.parse().ok()).unwrap_or(0.0)
}

fn millis(s: &Stamp) -> u64 {
    match s {
        Stamp::Ms(t) => *t,
        Stamp::Text(t) => price(t) as u64,
    }
}

#[test]
fn documents_are_read() {
    let j = read_text(r#"{"a":[1,"x",null,true,-2.5],"b":{"c":18446744073709551615}}"#).unwrap();
    let a = get(Some(&j), "a");
    assert_eq!(as_u64(elem(a, 0)), Some(1));
    assert_eq!(as_str(elem(a, 1)), Some("x"));
    assert!(matches!(elem(a, 2), Some(Json::Null)));
    assert!(matches!(elem(a, 3), Some(Json::Bool(true))));
    assert_eq!(as_u64(elem(a, 4)), None);
    assert_eq!(f(elem(a, 4)).as_deref(), Some("-2.5"));
    assert_eq!(as_array(a).unwrap().len(), 5);
    assert!(elem(a, 5).is_none());
    assert_eq!(as_u64(get(get(Some(&j), "b"), "c")), Some(u64::MAX));
    assert!(get(Some(&j), "d").is_none());
    assert!(get(a, "d").is_none());
    assert!(read_text("{").is_none());
    assert!(read_text("").is_none());
}

#[test]
fn bytes_are_read() {
    assert!(matches!(read_bytes(b" [ ] "), Some(Json::Array(v)) if v.is_empty()));
    assert!(matches!(read_bytes(b"\"\xc3\xa9\""), Some(Json::Str(s)) if s == "\u{e9}"));
    assert!(read_bytes(b"\xff").is_none());
}

#[test]
fn a_repeated_member_counts_as_serde_json_has_it() {
    let j = read_text(r#"{"a":1,"a":2}"#).unwrap();
    assert_eq!(as_u64(get(Some(&j), "a")), Some(2));
}

#[test]
fn numbers_keep_their_value() {
    for s in ["0", "-0.0", "1e400", "64000.10", "1E-7", "123456789012345678901234567890", "0.1"] {
        let Ok(v) = serde_json::from_str::<serde_json::Value>(s) else {
            assert!(read_text(s).is_none());
            continue;
        };
        let j = read_text(s).unwrap();
        let read: f64 = f(Some(&j)).unwrap().parse().unwrap();
        assert_eq!(Some(read), v.as_f64(), "{s}");
    }
}

#[test]
fn binance_book_ticker() {
    let q = quote(Source::Binance, r#"{"b":"64000.1","a":"64000.2","T":1700000000123}"#).unwrap();
    assert_eq!(price(&q.bid), 64000.1);
    assert_eq!(price(&q.ask), 64000.2);
    assert_eq!(millis(&q.stamp), 1700000000123);
    assert!(quote(Source::Binance, r#"{"result":null,"id":1}"#).is_none());
    assert!(quote(Source::Binance, "[]").is_none());
    let q = quote(Source::Binance, r#"{"b":3.5}"#).unwrap();
    assert_eq!(price(&q.bid), 3.5);
    assert_eq!(price(&q.ask), 0.0);
    assert_eq!(millis(&q.stamp), 0);
}

#[test]
fn bybit_order_book() {
    let text = r#"{"ts":1700000000123,"data":{"b":[["64000.1","2"]],"a":[["64000.2","3"]]}}"#;
    let q = quote(Source::Bybit, text).unwrap();
    assert_eq!(price(&q.bid), 64000.1);
    assert_eq!(price(&q.ask), 64000.2);
    assert_eq!(millis(&q.stamp), 1700000000123);
    let q = quote(Source::Bybit, r#"{"ts":5,"data":{"b":[],"a":[["2","3"]]}}"#).unwrap();
    assert_eq!((price(&q.bid), price(&q.ask)), (0.0, 2.0));
}

#[test]
fn okx_best_bid_and_offer() {
    let text = r#"{"data":[{"bids":[["10","1"]],"asks":[["11","1"]],"ts":"1700000000123"}]}"#;
    let q = quote(Source::Okx, text).unwrap();
    assert_eq!((price(&q.bid), price(&q.ask)), (10.0, 11.0));
    assert_eq!(millis(&q.stamp), 1700000000123);
    assert!(quote(Source::Okx, r#"{"event":"subscribe"}"#).is_none());
    assert!(quote(Source::Okx, r#"{"data":[]}"#).is_none());
}

#[test]
fn the_chains_best_bid_and_offer() {
    let text = r#"{"channel":"bbo","data":{"time":9,"bbo":[{"px":"1"},{"px":"2"}]}}"#;
    let q = quote(Source::Hl, text).unwrap();
    assert_eq!((price(&q.bid), price(&q.ask), millis(&q.stamp)), (1.0, 2.0, 9));
    assert!(quote(Source::Hl, r#"{"channel":"bbo","data":{"time":9,"bbo":[{"px":"1"}]}}"#).is_none());
    assert!(quote(Source::Hl, r#"{"channel":"pong"}"#).is_none());
    assert!(quote(Source::Hl, r#"{"channel":"trades"}"#).is_none());
}

#[test]
fn the_chains_trades() {
    let text = r#"{"channel":"trades","data":[
        {"px":"100.5","sz":"2","side":"B","time":7,"users":["0xa","0xb"],"hash":"0x0000"},
        {"px":"101","sz":"3","side":"A","time":8,"users":["0xc"],"hash":"0x01"},
        {}]}"#;
    let ws = read_message(Source::Hl, text);
    assert_eq!(ws.len(), 3);
    let trades: Vec<&WireTrade> = ws
        .iter()
        .map(|w| match w {
            Wire::Trade(t) => t,
            Wire::Quote(_) => panic!("a quote"),
        })
        .collect();
    assert_eq!(trades[0].px.as_deref(), Some("100.5"));
    assert_eq!(trades[0].sz.as_deref(), Some("2"));
    assert!(trades[0].buy && trades[0].zero_hash);
    assert_eq!(trades[0].exch_ms, 7);
    assert_eq!((trades[0].buyer.as_str(), trades[0].seller.as_str()), ("0xa", "0xb"));
    assert!(!trades[1].buy && !trades[1].zero_hash);
    assert_eq!((trades[1].buyer.as_str(), trades[1].seller.as_str()), ("0xc", ""));
    assert_eq!(trades[2].px, None);
    assert!(!trades[2].buy && !trades[2].zero_hash);
    assert_eq!(trades[2].exch_ms, 0);
}

#[test]
fn zero_hashes() {
    let zero = |hash: &str| {
        let text = format!(r#"{{"channel":"trades","data":[{{"hash":"{hash}"}}]}}"#);
        match &read_message(Source::Hl, &text)[0] {
            Wire::Trade(t) => t.zero_hash,
            Wire::Quote(_) => panic!("a quote"),
        }
    };
    assert!(zero("0x0000000000000000"));
    assert!(zero("0x"));
    assert!(zero(""));
    assert!(zero("0x0x00"));
    assert!(!zero("0x0000000000000001"));
    assert!(!zero("x"));
}

#[test]
fn the_event_of_a_trade() {
    let w = WireTrade {
        px: Some("2.5".to_string()),
        sz: Some("4".to_string()),
        buy: true,
        exch_ms: 11,
        buyer: "0xa".to_string(),
        seller: "0xb".to_string(),
        zero_hash: false,
    };
    let (px, sz) = (price(&w.px), price(&w.sz));
    match trade_event(w, Double { bits: px.to_bits() }, Double { bits: sz.to_bits() }, 311) {
        Ev::HlTrade(t) => {
            assert_eq!(f64::from_bits(t.px.bits), 2.5);
            assert_eq!(f64::from_bits(t.sz.bits), 4.0);
            assert_eq!((t.taker(), t.maker()), ("0xa", "0xb"));
            assert_eq!((t.exch_ms, t.recv_wall_ms), (11, 311));
        }
        other => panic!("{other:?}"),
    }
}
