use hl_blockscope::double::Double;
use hl_blockscope::order::percentile;
use hl_blockscope::feeds::{
    arg, composite, five, pct, quote_event, venue, Ev, HlBook, Quote, Ref, RefPoint, Source, Trade,
    BOOK, LAGS,
};

fn d(x: f64) -> Double {
    Double { bits: x.to_bits() }
}

fn x(v: Double) -> f64 {
    f64::from_bits(v.bits)
}

/// The composite mid of a reference.
fn mid(p: RefPoint) -> f64 {
    (x(p.low) + x(p.high)) / 2.0
}

fn quote(bid: f64, ask: f64, exch_ms: u64) -> Quote {
    let mid = (bid + ask) / 2.0;
    Quote {
        bid: d(bid),
        ask: d(ask),
        mid: d(mid),
        half_bps: d((ask - bid) / mid / 2.0 * 1e4),
        exch_ms,
        recv_wall_ms: exch_ms + 5,
    }
}

#[test]
fn a_reference_of_three_venues() {
    let mut r = Ref::new();
    assert!(r.at(100, 1500).is_none());
    r.set("binance", quote(99.0, 101.0, 90));
    r.set("bybit", quote(104.0, 106.0, 80));
    r.set("okx", quote(101.5, 102.5, 100));
    let p = r.at(100, 1500).unwrap();
    assert_eq!((x(p.low), x(p.high)), (102.0, 102.0));
    assert_eq!(x(p.half_spread_bps), (102.5 - 101.5) / 102.0 / 2.0 * 1e4);
    assert_eq!(p.venues, 3);
    let p = r.at(99, 1500).unwrap();
    assert_eq!((x(p.low), x(p.high), p.venues), (100.0, 105.0, 2));
    assert_eq!(mid(p), 102.5);
    let p = r.at(85, 1500).unwrap();
    assert_eq!((mid(p), p.venues), (105.0, 1));
    assert!(r.at(79, 1500).is_none());
}

#[test]
fn stale_and_crossed_quotes_do_not_count() {
    let mut r = Ref::new();
    r.set("okx", quote(10.0, 11.0, 100));
    assert!(r.at(1600, 1500).is_some());
    assert!(r.at(1601, 1500).is_none());
    r.set("okx", quote(12.0, 11.0, 200));
    assert!(r.at(200, 1500).is_none());
    r.set("okx", quote(11.0, 11.0, 300));
    assert!(r.at(300, 1500).is_none());
    r.set("okx", quote(0.0, 11.0, 400));
    assert!(r.at(400, 1500).is_none());
    assert!(r.at(150, 1500).is_some());
}

#[test]
fn later_quotes_leave_the_reference_alone() {
    let mut r = Ref::new();
    r.set("binance", quote(10.0, 11.0, 100));
    let before = mid(r.at(100, 1500).unwrap());
    r.set("binance", quote(20.0, 21.0, 101));
    assert_eq!(mid(r.at(100, 1500).unwrap()), before);
}

#[test]
fn histories_are_bounded() {
    let mut r = Ref::new();
    for t in 0..2500u64 {
        r.set("bybit", quote(10.0, 11.0, t));
    }
    assert_eq!(r.hist[1].len(), BOOK);
    assert_eq!(r.hist[1][0].exch_ms, 2100);
    assert_eq!(r.lag[1].len(), LAGS);
    assert!(r.lag[1].iter().all(|l| *l == 5));
    assert!(r.hist[0].is_empty() && r.hist[2].is_empty());
    let mut b = HlBook::new();
    for t in 0..401u64 {
        b.set(quote(10.0, 11.0, t));
    }
    assert_eq!(b.hist.len(), 400);
    assert!(b.mid_at(0).is_none());
    assert!(b.mid_at(1).is_some());
}

#[test]
fn lags_are_arrival_less_stamp() {
    let mut r = Ref::new();
    let mut ahead = quote(10.0, 11.0, 1000);
    ahead.recv_wall_ms = 993;
    r.set("okx", ahead);
    r.set("okx", quote(10.0, 11.0, 1000));
    assert_eq!(r.lag[2], vec![-7, 5]);
    ahead.exch_ms = u64::MAX;
    ahead.recv_wall_ms = 0;
    assert_eq!(ahead.lag_ms(), -(u64::MAX as i128));
}

#[test]
fn venues_by_position() {
    assert_eq!((venue(0), venue(1), venue(2)), ("binance", "bybit", "okx"));
}

#[test]
fn a_composite_of_two_is_between_them() {
    let p = composite(&vec![quote(20.0, 21.0, 0), quote(10.0, 12.0, 0)]).unwrap();
    assert_eq!((x(p.low), x(p.high)), (11.0, 20.5));
    assert!(composite(&vec![]).is_none());
    let mut r = Ref::default();
    r.set("binance", quote(99.0, 101.0, 1000));
    r.set("okx", quote(101.0, 103.0, 1000));
    let p = r.at(1000, 1500).unwrap();
    assert_eq!((mid(p), p.venues), (101.0, 2));
}

#[test]
fn quantiles_of_numbers_and_of_their_doubles_agree() {
    let v: Vec<u64> = vec![7, 3, u64::MAX, 3, u64::MAX - 1, 12, 0, 900];
    for percent in [0, 10, 25, 50, 75, 90, 95, 100] {
        let mut w: Vec<Double> = v.iter().map(|n| d(*n as f64)).collect();
        let mut copy = v.clone();
        assert_eq!(x(pct(&mut w, percent)), percentile(&mut copy, percent) as f64);
        let doubles: Vec<f64> = w.iter().map(|y| x(*y)).collect();
        assert_eq!(doubles, copy.iter().map(|n| *n as f64).collect::<Vec<f64>>());
    }
}

#[test]
fn mids_at_and_before() {
    let mut b = HlBook::new();
    assert!(b.mid_at(5).is_none());
    b.set(quote(10.0, 12.0, 5));
    b.set(quote(20.0, 22.0, 7));
    assert_eq!(b.mid_at(4).map(x), None);
    assert_eq!(b.mid_at(5).map(x), Some(11.0));
    assert_eq!(b.mid_at(6).map(x), Some(11.0));
    assert_eq!(b.mid_at(7).map(x), Some(21.0));
    assert_eq!(b.mid_before(5).map(x), None);
    assert_eq!(b.mid_before(7).map(x), Some(11.0));
    assert_eq!(b.mid_before(8).map(x), Some(21.0));
    b.set(quote(30.0, 32.0, 8));
    assert_eq!(b.mid_before(8).map(x), Some(21.0));
    assert_eq!(b.hist[0].mid().bits, 11.0f64.to_bits());
}

#[test]
fn counterparties() {
    let mut t = Trade {
        px: d(1.0),
        sz: d(1.0),
        buy: true,
        exch_ms: 0,
        recv_wall_ms: 0,
        buyer: "buyer".to_string(),
        seller: "seller".to_string(),
        zero_hash: false,
    };
    assert_eq!((t.taker(), t.maker()), ("buyer", "seller"));
    t.buy = false;
    assert_eq!((t.taker(), t.maker()), ("seller", "buyer"));
}

#[test]
fn quotes_without_prices_are_not_admitted() {
    assert!(quote_event(Source::Bybit, quote(0.0, 0.0, 1)).is_none());
    assert!(quote_event(Source::Bybit, quote(0.0, 1.0, 1)).is_some());
    assert!(quote_event(Source::Okx, quote(0.0, 1.0, 1)).is_none());
    assert!(quote_event(Source::Okx, quote(1.0, -0.0, 1)).is_none());
    assert!(matches!(
        quote_event(Source::Binance, quote(0.0, 0.0, 1)),
        Some(Ev::Cex { venue: "binance", .. })
    ));
    assert!(matches!(quote_event(Source::Okx, quote(1.0, 2.0, 1)), Some(Ev::Cex { venue: "okx", .. })));
    assert!(matches!(quote_event(Source::Hl, quote(0.0, 0.0, 1)), Some(Ev::HlBbo(q)) if q.exch_ms == 1));
}

#[test]
fn quantiles_of_doubles() {
    let mut none: Vec<Double> = Vec::new();
    assert!(x(pct(&mut none, 50)).is_nan());
    let mut v: Vec<Double> = [3.0, -1.0, 2.0, 0.5, 7.0].iter().map(|y| d(*y)).collect();
    assert_eq!(x(pct(&mut v, 50)), 2.0);
    assert_eq!(v.iter().map(|y| x(*y)).collect::<Vec<f64>>(), vec![-1.0, 0.5, 2.0, 3.0, 7.0]);
    assert_eq!(x(pct(&mut v, 10)), -1.0);
    assert_eq!(x(pct(&mut v, 90)), 7.0);
    assert_eq!(x(pct(&mut v, 75)), 3.0);
}

#[test]
fn five_quantiles() {
    let v: Vec<Double> = (0..21).rev().map(|y| d(y as f64)).collect();
    let q: Vec<f64> = five(&v).iter().map(|y| x(*y)).collect();
    assert_eq!(q, vec![2.0, 5.0, 10.0, 15.0, 18.0]);
}

#[test]
fn options_of_the_command_line() {
    let a: Vec<String> =
        ["x", "--secs", "5", "--coin", "--secs", "6"].iter().map(|s| s.to_string()).collect();
    assert_eq!(arg(&a, "--secs", "9"), "5");
    assert_eq!(arg(&a, "--coin", "BTC"), "--secs");
    assert_eq!(arg(&a, "--csv", ""), "");
    assert_eq!(arg(&a, "6", "none"), "none");
}

#[test]
fn before_is_at_one_millisecond_less() {
    let mut b = HlBook::default();
    for (i, t) in [5u64, 5, 7, 6, 9].iter().enumerate() {
        b.set(quote(i as f64 + 1.0, i as f64 + 2.0, *t));
    }
    assert!(b.mid_before(0).is_none());
    for t in 1..12 {
        assert_eq!(b.mid_before(t).map(x), b.mid_at(t - 1).map(x));
    }
    assert!(Ref::default().at(5, 5).is_none());
}
