use hl_blockscope::double::Double;
use hl_blockscope::feeds::Quote;
use hl_blockscope::regulator::{Cost, Regulator, Tick};

fn d(x: f64) -> Double {
    Double { bits: x.to_bits() }
}

fn x(v: Double) -> f64 {
    f64::from_bits(v.bits)
}

fn quote(bid: f64, ask: f64, exch_ms: u64) -> Quote {
    let mid = (bid + ask) / 2.0;
    Quote {
        bid: d(bid),
        ask: d(ask),
        mid: d(mid),
        half_bps: d((ask - bid) / mid / 2.0 * 1e4),
        exch_ms,
        recv_wall_ms: exch_ms + 300,
    }
}

fn cost(eff: f64, all_in: f64, neutral: f64, cex: f64) -> Cost {
    Cost {
        eff: d(eff),
        basis: d(0.5),
        cost: d(1.5),
        half: d(0.1),
        size: d(1000.0),
        all_in: d(all_in),
        all_in_neutral: d(neutral),
        cex_all_in: d(cex),
    }
}

#[test]
fn a_fill_is_measured_from_the_mid_before_it() {
    let mut r = Regulator::new();
    r.quote("binance", quote(99.0, 101.0, 1000));
    assert!(r.bbo(quote(100.0, 102.0, 1000)).is_some());
    assert!(r.bbo(quote(110.0, 112.0, 1005)).is_some());
    let (point, mid) = r.fill(1005).unwrap();
    assert_eq!((x(point.low), x(point.high)), (100.0, 100.0));
    assert_eq!(x(mid), 101.0);
    let (_, mid) = r.fill(1006).unwrap();
    assert_eq!(x(mid), 111.0);
    assert_eq!(r.skipped, 0);
    assert!(r.fill(1000).is_none());
    assert!(r.fill(5000).is_none());
    assert_eq!(r.skipped, 2);
    assert_eq!(r.hl_lag, vec![300, 300]);
}

#[test]
fn a_quote_without_reference() {
    let mut r = Regulator::new();
    assert!(r.cex.lag.iter().all(|l| l.is_empty()));
    assert!(r.bbo(quote(100.0, 102.0, 1000)).is_none());
    r.quote("okx", quote(99.0, 101.0, 1001));
    assert!(r.bbo(quote(100.0, 102.0, 1000)).is_none());
    assert_eq!(r.bbo(quote(100.0, 102.0, 1001)).unwrap().venues, 1);
}

#[test]
fn deviations_and_their_rolling_median() {
    let mut r = Regulator::new();
    assert!(r.deviation(1_000, d(4.0)).is_none());
    let t = r.deviation(2_000, d(-2.0)).unwrap();
    assert_eq!((t.dt_ms, x(t.dev), x(t.basis)), (1_000, 4.0, 4.0));
    let t = r.deviation(3_500, d(1.0)).unwrap();
    assert_eq!((t.dt_ms, x(t.dev), x(t.basis)), (1_500, -2.0, 1.0));
    let t = r.deviation(31_000, d(9.0)).unwrap();
    assert_eq!((t.dt_ms, x(t.dev), x(t.basis)), (27_500, 1.0, 4.0));
    assert_eq!(r.window.len(), 4);
    let t = r.deviation(31_001, d(9.0)).unwrap();
    assert_eq!(x(t.basis), 9.0);
    assert_eq!(r.window.len(), 4);
    let t = r.deviation(31_000, d(7.0)).unwrap();
    assert_eq!(t.dt_ms, 0);
    assert_eq!(r.window.len(), 5);
    let t = r.deviation(1, d(7.0)).unwrap();
    assert_eq!(t.dt_ms, 0);
    assert_eq!(r.window.len(), 6);
    assert_eq!(r.devs.len(), 7);
}

#[test]
fn time_above_the_thresholds() {
    let mut r = Regulator::new();
    let tick = |dt_ms: u64, dev: f64| Tick { dt_ms, dev: d(dev), basis: d(0.0) };
    r.weigh(tick(100, 0.5), d(-1.5));
    r.weigh(tick(10, -6.0), d(1.0));
    r.weigh(tick(1, 2.0), d(5.1));
    assert_eq!(r.total_ms, 111);
    assert_eq!(r.over_raw, [11, 10, 10]);
    assert_eq!(r.over_adj, [101, 1, 1]);
}

#[test]
fn costs_are_recorded() {
    let mut r = Regulator::new();
    r.record(cost(0.1, 8.0, 7.1, 2.1));
    r.record(cost(-0.2, 2.0, 2.1, 2.1));
    r.record(cost(0.3, 3.0, 1.0, 2.1));
    assert_eq!((r.beat_raw, r.beat_adj), (1, 1));
    assert_eq!(r.eff.iter().map(|v| x(*v)).collect::<Vec<f64>>(), vec![0.1, -0.2, 0.3]);
    assert_eq!(x(r.basis[2]), 0.5);
    assert_eq!(x(r.cost[1]), 1.5);
    assert_eq!(x(r.half[0]), 0.1);
    assert_eq!(x(r.size[0]), 1000.0);
}

#[test]
fn a_nan_has_no_place_in_an_order() {
    let mut r = Regulator::new();
    assert!(r.can_take(1_000, d(f64::NAN)));
    assert!(r.deviation(1_000, d(f64::NAN)).is_none());
    assert!(!r.can_take(2_000, d(1.0)));
    assert!(!r.can_take(31_000, d(1.0)));
    assert!(r.can_take(31_001, d(1.0)));
    assert!(r.can_take(31_001, d(f64::NAN)));
    r.deviation(31_001, d(1.0));
    assert!(!r.can_take(31_002, d(f64::NAN)));
    assert!(r.can_take(31_002, d(2.0)));
}
