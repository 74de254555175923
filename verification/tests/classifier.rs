use hl_blockscope::accounts::{observe, tally, total, Acc, Observation, Side, Sums, Table};
use hl_blockscope::classes::{
    by_amount, classify, classify_rule, cluster_classes, decompose, eligible, meet, members, plan,
    Class, Evidence, Met, Plan, Role,
};
use hl_blockscope::classifier::{fill, horizon_ms, Fill, Measures, Pending, Watch};
use hl_blockscope::double::Double;
use hl_blockscope::feeds::{Quote, Trade};
use hl_blockscope::groups::{group_by, By};

fn d(x: f64) -> Double {
    Double { bits: x.to_bits() }
}

fn x(v: Double) -> f64 {
    f64::from_bits(v.bits)
}

fn quote(mid: f64, exch_ms: u64) -> Quote {
    Quote {
        bid: d(mid - 1.0),
        ask: d(mid + 1.0),
        mid: d(mid),
        half_bps: d(1.0),
        exch_ms,
        recv_wall_ms: exch_ms,
    }
}

fn trade(buy: bool, exch_ms: u64, zero_hash: bool) -> Trade {
    Trade {
        px: d(100.0),
        sz: d(2.0),
        buy,
        exch_ms,
        recv_wall_ms: exch_ms + 300,
        buyer: "0xbuyer".to_string(),
        seller: "0xseller".to_string(),
        zero_hash,
    }
}

fn resolved(taker: &str, maker: &str, ms: u64, notional: f64, mo1s: f64, twap: bool) -> Fill {
    Fill {
        ms,
        taker: taker.to_string(),
        maker: maker.to_string(),
        notional: d(notional),
        eff: d(0.25),
        mo: [d(0.1), d(mo1s), d(0.5)],
        pre: if twap { None } else { Some(d(0.75)) },
        twap,
    }
}

fn sums(fills: &Vec<Fill>, groups: &Vec<Vec<usize>>) -> Vec<Sums> {
    groups
        .iter()
        .map(|g| {
            let notional: f64 = g.iter().map(|i| x(fills[*i].notional)).sum();
            let eff = g.iter().map(|i| x(fills[*i].eff) * x(fills[*i].notional)).sum::<f64>() / notional;
            Sums { notional: d(notional), eff: d(eff) }
        })
        .collect()
}

fn sample() -> Vec<Fill> {
    vec![
        resolved("t1", "m1", 10, 100.0, 1.0, false),
        resolved("t2", "m1", 10, 50.0, -1.0, true),
        resolved("t1", "m2", 10, 200.0, 1.0, false),
        resolved("t1", "m1", 10, 300.0, 1.0, false),
        resolved("t1", "m1", 11, 10.0, 0.2, false),
        resolved("t2", "m2", 12, 20.0, 0.9, false),
    ]
}

fn addresses(t: &Table) -> Vec<&str> {
    t.accounts.iter().map(|a| a.address.as_str()).collect()
}

#[test]
fn horizons() {
    assert_eq!((horizon_ms(0), horizon_ms(1), horizon_ms(2)), (100, 1_000, 5_000));
}

#[test]
fn fills_wait_for_their_markouts() {
    let mut w = Watch::new();
    w.trade(trade(true, 1_000, true));
    assert_eq!((w.no_mid, w.zero_hash), (1, 1));
    assert!(w.pending.is_empty());
    assert!(w.bbo(quote(100.0, 999)).is_empty());
    assert!(w.bbo(quote(101.0, 1_000)).is_empty());
    w.trade(trade(true, 1_000, false));
    assert_eq!((w.no_mid, w.zero_hash), (1, 1));
    assert_eq!(w.pending.len(), 1);
    assert_eq!(x(w.pending[0].mid0), 100.0);
    assert!(w.pending[0].pre.is_none());
    assert!(w.bbo(quote(102.0, 1_099)).is_empty());
    assert!(w.pending[0].marks[0].is_none());
    assert!(w.bbo(quote(103.0, 1_100)).is_empty());
    assert_eq!(w.pending[0].marks[0].map(x), Some(103.0));
    assert!(w.bbo(quote(104.0, 1_900)).is_empty());
    w.trade(trade(false, 1_950, false));
    assert!(w.bbo(quote(105.0, 2_500)).is_empty());
    assert_eq!(w.pending[0].marks[1].map(x), Some(104.0));
    assert_eq!(w.pending[0].marks[0].map(x), Some(103.0));
    let done = w.bbo(quote(106.0, 6_500));
    assert_eq!(done.len(), 1);
    assert_eq!(done[0].marks[2].map(x), Some(105.0));
    assert_eq!(w.pending.len(), 1);
    assert_eq!(w.pending[0].t.exch_ms, 1_950);
    assert!(w.pending[0].marks[2].is_none());
}

#[test]
fn fills_leave_in_order() {
    let mut w = Watch::new();
    w.bbo(quote(100.0, 0));
    for t in [10, 20, 30] {
        w.trade(trade(true, t, false));
    }
    assert!(w.bbo(quote(101.0, 5_009)).is_empty());
    let done = w.bbo(quote(101.0, 5_020));
    let times: Vec<u64> = done.iter().map(|p| p.t.exch_ms).collect();
    assert_eq!(times, vec![10, 20]);
}

#[test]
fn the_move_before_a_fill() {
    let mut w = Watch::new();
    w.bbo(quote(100.0, 0));
    w.quote("binance", quote(200.0, 500));
    w.quote("binance", quote(201.0, 900));
    w.trade(trade(true, 1_000, false));
    let (now, before) = w.pending[0].pre.unwrap();
    assert_eq!((x(now.low), x(now.high)), (201.0, 201.0));
    assert_eq!((x(before.low), x(before.high)), (200.0, 200.0));
    w.trade(trade(true, 999, false));
    assert!(w.pending[1].pre.is_none());
}

#[test]
fn the_move_before_an_early_fill() {
    let mut w = Watch::new();
    w.bbo(quote(100.0, 0));
    w.quote("okx", quote(200.0, 0));
    w.trade(trade(true, 400, false));
    let (now, before) = w.pending[0].pre.unwrap();
    assert_eq!((x(now.high), x(before.high)), (200.0, 200.0));
    assert!(w.cex.lag[0].is_empty() && w.cex.lag[2].len() == 1);
}

#[test]
fn a_pending_fill_becomes_a_fill() {
    let p = Pending {
        t: trade(false, 77, true),
        mid0: d(100.0),
        pre: None,
        marks: [Some(d(1.0)), Some(d(2.0)), Some(d(3.0))],
    };
    let m = Measures {
        notional: d(200.0),
        eff: d(0.5),
        mo: [d(1.0), d(2.0), d(3.0)],
        pre: None,
    };
    let f = fill(&p, m);
    assert_eq!((f.ms, f.taker.as_str(), f.maker.as_str()), (77, "0xseller", "0xbuyer"));
    assert_eq!((x(f.notional), x(f.eff), x(f.mo[2])), (200.0, 0.5, 3.0));
    assert!(f.pre.is_none() && f.twap);
}

#[test]
fn a_sweep_is_one_order() {
    let fills = sample();
    assert_eq!(group_by(&fills, By::Order), vec![vec![0, 2, 3], vec![1], vec![4], vec![5]]);
    assert_eq!(
        group_by(&fills, By::Hit),
        vec![vec![0, 3], vec![1], vec![2], vec![4], vec![5]]
    );
    assert!(group_by(&vec![], By::Order).is_empty());
}

#[test]
fn observations_add_up() {
    let fills = sample();
    let orders = group_by(&fills, By::Order);
    let s = sums(&fills, &orders);
    let o = observe(&fills, &orders[0], s[0]);
    assert_eq!((o.fills, x(o.notional), x(o.eff), x(o.mo[1])), (3, 600.0, 0.25, 1.0));
    let all = total(&fills, &orders, &s, d(0.5));
    assert_eq!((all.n, all.fills, all.pickoffs, all.twap), (4, 6, 2, 1));
    assert_eq!(
        all.mo[1].iter().map(|v| x(*v)).collect::<Vec<f64>>(),
        vec![1.0, -1.0, 0.2, 0.9]
    );
    assert_eq!(all.pre.len(), 3);
    let mut one = Acc::new();
    one.push(
        Observation { fills: 2, notional: d(5.0), eff: d(1.0), mo: [d(0.5); 3], pre: None, twap: true },
        d(0.5),
    );
    assert_eq!((one.n, one.fills, one.pickoffs, one.twap, one.pre.len()), (1, 2, 0, 1, 0));
}

#[test]
fn accounts_by_side() {
    let fills = sample();
    let orders = group_by(&fills, By::Order);
    let hits = group_by(&fills, By::Hit);
    let takers = tally(&fills, &orders, &sums(&fills, &orders), Side::Taker, d(0.5));
    assert_eq!(addresses(&takers), vec!["t1", "t2"]);
    assert_eq!((takers.accounts[0].acc.n, takers.accounts[0].acc.fills), (2, 4));
    assert_eq!((takers.accounts[1].acc.n, takers.accounts[1].acc.twap), (2, 1));
    let makers = tally(&fills, &hits, &sums(&fills, &hits), Side::Maker, d(0.5));
    assert_eq!(addresses(&makers), vec!["m1", "m2"]);
    assert_eq!((makers.accounts[0].acc.n, makers.accounts[0].acc.pickoffs), (3, 1));
    assert_eq!((makers.accounts[1].acc.n, makers.accounts[1].acc.pickoffs), (2, 2));
    assert_eq!(makers.find("m2"), Some(1));
    assert_eq!(makers.find("t1"), None);
    for f in &fills {
        assert!(takers.find(&f.taker).is_some() && makers.find(&f.maker).is_some());
    }
}

fn acc(n: usize, twap: usize) -> Acc {
    let mut a = Acc::new();
    for i in 0..n {
        a.push(
            Observation {
                fills: 1,
                notional: d(1.0),
                eff: d(0.0),
                mo: [d(0.0); 3],
                pre: None,
                twap: i < twap,
            },
            d(0.5),
        );
    }
    a
}

#[test]
fn the_rule_of_classification() {
    let e = |mean: f64, tstat: f64| Evidence { mean: d(mean), tstat: d(tstat) };
    assert_eq!(classify_rule(&acc(3, 2), 5, e(9.0, 9.0)), Class::Twap);
    assert_eq!(classify_rule(&acc(4, 2), 5, e(9.0, 9.0)), Class::Thin);
    assert_eq!(classify_rule(&acc(5, 2), 5, e(0.1, 2.1)), Class::Informed);
    assert_eq!(classify_rule(&acc(5, 2), 5, e(0.1, 2.0)), Class::Natural);
    assert_eq!(classify_rule(&acc(5, 2), 5, e(0.0, 3.0)), Class::Natural);
    assert_eq!(classify_rule(&acc(5, 2), 5, e(-1.0, -9.0)), Class::Natural);
    assert_eq!(classify_rule(&acc(1, 0), 1, e(1.0, f64::NAN)), Class::Natural);
    assert_eq!(classify_rule(&acc(0, 0), 0, e(f64::NAN, f64::NAN)), Class::Natural);
}

#[test]
fn class_labels() {
    let labels: Vec<String> = [
        Class::Informed,
        Class::Natural,
        Class::Twap,
        Class::Thin,
        Class::Cluster(0),
        Class::Cluster(256),
    ]
    .iter()
    .map(|c| c.label())
    .collect();
    assert_eq!(labels, vec!["informed", "natural", "twap", "thin", "k0", "k256"]);
    assert_eq!((Role::Maker.label(), Role::Other.label()), ("maker", "other"));
}

#[test]
fn clusters_of_those_with_enough_orders() {
    let fills = sample();
    let hits = group_by(&fills, By::Hit);
    let makers = tally(&fills, &hits, &sums(&fills, &hits), Side::Maker, d(0.5));
    assert_eq!(eligible(&makers, 2), vec![0, 1]);
    assert_eq!(eligible(&makers, 3), vec![0]);
    assert_eq!(eligible(&makers, 4), Vec::<usize>::new());
    let classes = cluster_classes(4, &vec![1, 3], &vec![2, 257]);
    assert_eq!(classes, vec![Class::Thin, Class::Cluster(2), Class::Thin, Class::Cluster(257)]);
    assert_eq!(members(&classes, Class::Thin), vec![0, 2]);
    assert_eq!(members(&classes, Class::Cluster(257)), vec![3]);
    assert_eq!(members(&classes, Class::Cluster(9)), Vec::<usize>::new());
}

#[test]
fn how_takers_are_classified() {
    let fills = sample();
    let orders = group_by(&fills, By::Order);
    let takers = tally(&fills, &orders, &sums(&fills, &orders), Side::Taker, d(0.5));
    assert!(matches!(plan(&takers, 2, 0), Plan::Rule));
    assert!(matches!(plan(&takers, 2, 2), Plan::Cluster(rows) if rows == vec![0, 1]));
    assert!(matches!(plan(&takers, 2, 3), Plan::TooFew(2)));
    assert!(matches!(plan(&takers, 3, 1), Plan::TooFew(0)));
}

#[test]
fn accounts_hold_every_fill_once() {
    let fills = sample();
    let orders = group_by(&fills, By::Order);
    let hits = group_by(&fills, By::Hit);
    let takers = tally(&fills, &orders, &sums(&fills, &orders), Side::Taker, d(0.5));
    let makers = tally(&fills, &hits, &sums(&fills, &hits), Side::Maker, d(0.5));
    assert_eq!(takers.accounts.iter().map(|a| a.acc.fills).sum::<u128>(), 6);
    assert_eq!(makers.accounts.iter().map(|a| a.acc.fills).sum::<u128>(), 6);
}

#[test]
fn volume_is_decomposed() {
    let fills = sample();
    let orders = group_by(&fills, By::Order);
    let hits = group_by(&fills, By::Hit);
    let takers = tally(&fills, &orders, &sums(&fills, &orders), Side::Taker, d(0.5));
    let makers = tally(&fills, &hits, &sums(&fills, &hits), Side::Maker, d(0.5));
    let evidence = vec![
        Evidence { mean: d(0.6), tstat: d(2.5) },
        Evidence { mean: d(-0.05), tstat: d(-0.1) },
    ];
    let classes = classify(&takers, 2, &evidence);
    assert_eq!(classes, vec![Class::Informed, Class::Natural]);
    let met = meet(&fills, &takers, &classes, &makers, 3);
    assert_eq!(met[0], Met { taker: Class::Informed, maker: Role::Maker });
    assert_eq!(met[2], Met { taker: Class::Informed, maker: Role::Other });
    let cells = decompose(&met);
    let summary: Vec<(Met, Vec<usize>)> = cells.iter().map(|c| (c.met, c.fills.clone())).collect();
    assert_eq!(
        summary,
        vec![
            (Met { taker: Class::Informed, maker: Role::Maker }, vec![0, 3, 4]),
            (Met { taker: Class::Natural, maker: Role::Maker }, vec![1]),
            (Met { taker: Class::Informed, maker: Role::Other }, vec![2]),
            (Met { taker: Class::Natural, maker: Role::Other }, vec![5]),
        ]
    );
}

#[test]
fn rankings_by_amount() {
    let amounts: Vec<Double> = [3.0, 9.0, -1.0, 9.0, 0.0].iter().map(|v| d(*v)).collect();
    assert_eq!(by_amount(&amounts), vec![1, 3, 0, 4, 2]);
    assert_eq!(by_amount(&vec![]), Vec::<usize>::new());
}
