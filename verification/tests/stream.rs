use hl_blockscope::feeds::Source;
use hl_blockscope::stream::{
    binance_stream, bybit_subscription, coin, hl_subscription, next_on_stream, okx_subscription, streams, Happened,
    Next, REST,
};
use hl_blockscope::wire::Wire;

#[test]
fn the_coin_is_in_upper_case() {
    let args = |a: &[&str]| -> Vec<String> { a.iter().map(|s| s.to_string()).collect() };
    assert_eq!(coin(&args(&["regulator", "--coin", "eth"])), "ETH");
    assert_eq!(coin(&args(&["regulator", "--secs", "5"])), "BTC");
    assert_eq!(coin(&args(&["regulator", "--coin"])), "BTC");
}

#[test]
fn subscriptions_as_text() {
    assert_eq!(bybit_subscription("BTC"), r#"{"args":["orderbook.1.BTCUSDT"],"op":"subscribe"}"#);
    assert_eq!(
        okx_subscription("ETH"),
        r#"{"args":[{"channel":"bbo-tbt","instId":"ETH-USDT-SWAP"}],"op":"subscribe"}"#
    );
    assert_eq!(
        hl_subscription("trades", "SOL"),
        r#"{"method":"subscribe","subscription":{"coin":"SOL","type":"trades"}}"#
    );
}

#[test]
fn subscriptions_are_the_same_documents() {
    let v: serde_json::Value = serde_json::from_str(&hl_subscription("bbo", "HYPE")).unwrap();
    assert_eq!(v["method"], "subscribe");
    assert_eq!(v["subscription"]["type"], "bbo");
    assert_eq!(v["subscription"]["coin"], "HYPE");
}

#[test]
fn streams_of_all_venues() {
    let all = streams("BTC", true);
    let urls: Vec<&str> = all.iter().map(|s| s.url.as_str()).collect();
    assert_eq!(
        urls,
        vec![
            "wss://fstream.binance.com/ws/btcusdt@bookTicker",
            "wss://stream.bybit.com/v5/public/linear",
            "wss://ws.okx.com:8443/ws/v5/public",
            "wss://api.hyperliquid.xyz/ws",
            "wss://api.hyperliquid.xyz/ws",
        ]
    );
    assert_eq!(all[0].url, binance_stream("btc").url);
    assert_eq!(all[0].sub, None);
    assert_eq!(all[1].sub, Some(bybit_subscription("BTC")));
    assert_eq!(all[2].sub, Some(okx_subscription("BTC")));
    assert_eq!(all[3].sub, Some(hl_subscription("trades", "BTC")));
    assert_eq!(all[4].sub, Some(hl_subscription("bbo", "BTC")));
    assert_eq!(all[0].source, Source::Binance);
    assert_eq!(all[4].source, Source::Hl);
}

#[test]
fn streams_of_the_chain_alone() {
    let own = streams("BTC", false);
    assert_eq!(own.len(), 2);
    assert!(own.iter().all(|s| s.source == Source::Hl));
}

#[test]
fn a_stream_is_kept_alive() {
    let next = |h: Happened| next_on_stream(Source::Bybit, true, &h);
    assert!(matches!(next(Happened::Connected), Next::Subscribe));
    assert!(matches!(next_on_stream(Source::Binance, false, &Happened::Connected), Next::Receive));
    assert!(matches!(next(Happened::Subscribed), Next::Receive));
    assert!(matches!(next(Happened::Ping), Next::Pong));
    assert!(matches!(next(Happened::Ponged), Next::Receive));
    assert!(matches!(next(Happened::Other), Next::Receive));
    assert!(matches!(next(Happened::Delivered), Next::Receive));
    assert!(matches!(next(Happened::Ended), Next::Rest(REST)));
    assert!(matches!(next(Happened::Refused), Next::Rest(2)));
    assert!(matches!(next(Happened::Rested), Next::Connect));
    assert!(matches!(next(Happened::Unheard), Next::Stop));
}

#[test]
fn a_text_frame_is_read() {
    let text = r#"{"b":"1.5","a":"2","T":7}"#.to_string();
    match next_on_stream(Source::Binance, false, &Happened::Text(text)) {
        Next::Deliver(ws) => {
            assert_eq!(ws.len(), 1);
            assert!(matches!(&ws[0], Wire::Quote(q) if q.bid.as_deref() == Some("1.5")));
        }
        other => panic!("{other:?}"),
    }
    match next_on_stream(Source::Binance, false, &Happened::Text("no json".to_string())) {
        Next::Deliver(ws) => assert!(ws.is_empty()),
        other => panic!("{other:?}"),
    }
}
