//! Execution quality: every fill on the chain against the venues' reference, and how long the
//! chain's mid sits away from it.
//!
//! The arithmetic on prices is the caller's: between two steps it turns the prices that the
//! first hands out into the costs and deviations that the second takes in.
use vstd::prelude::*;

use std::collections::VecDeque;

use vstd::arithmetic::power2::pow2;

use crate::double::{
    is_number, law_absolute_is_the_distance_from_zero, law_constants_are_their_numbers,
    law_doubles_compare_as_numbers, units, Double, FIVE, ONE, TWO,
};
use crate::feeds::{
    latest_before, mid_of, one_more, pct, push_bounded, pushed, sorted, venue_index, HlBook, Quote,
    Ref, RefPoint, BOOK, LAGS,
};
use crate::order::{law_ranks_are_nearest, nearest_rank};

verus! {

/// The oldest venue quote that a reference is built from, in milliseconds.
pub const MAX_AGE_MS: u64 = 1500;

/// How far back the rolling basis reaches, in milliseconds.
pub const BASIS_MS: u64 = 30_000;

/// A threshold of the mispricing clock, in basis points: one, two or five.
pub open spec fn threshold(i: int) -> Double {
    if i == 0 {
        Double { bits: ONE }
    } else if i == 1 {
        Double { bits: TWO }
    } else {
        Double { bits: FIVE }
    }
}

/// What a fill cost, in basis points unless said otherwise.
#[derive(Clone, Copy, Debug)]
pub struct Cost {
    /// Effective half-spread: what the taker paid relative to the chain's own mid.
    pub eff: Double,
    /// The chain's mid against the venues' mid, signed by side.
    pub basis: Double,
    /// Cost against the venues' mid.
    pub cost: Double,
    /// The venues' tightest half-spread.
    pub half: Double,
    /// Notional, in dollars.
    pub size: Double,
    /// `cost` and the chain's fee.
    pub all_in: Double,
    /// `eff` and the chain's fee.
    pub all_in_neutral: Double,
    /// `half` and the venues' fee.
    pub cex_all_in: Double,
}

/// A stretch of time between two quotes of the chain, the deviation that held over it, and
/// the rolling median of deviations at its end.
#[derive(Clone, Copy, Debug)]
pub struct Tick {
    pub dt_ms: u64,
    pub dev: Double,
    pub basis: Double,
}

/// What has been measured so far.
pub struct Regulator {
    pub cex: Ref,
    pub hl: HlBook,
    /// The lags of the chain's quotes.
    pub hl_lag: VecDeque<i128>,
    /// The deviations of the last thirty seconds, with the chain's time of each.
    pub window: VecDeque<(u64, Double)>,
    /// The last deviation.
    pub prev: Option<(u64, Double)>,
    /// All deviations.
    pub devs: Vec<Double>,
    /// The milliseconds measured, and those with a deviation above each threshold: as it is,
    /// and net of the rolling median.
    pub total_ms: u128,
    pub over_raw: [u128; 3],
    pub over_adj: [u128; 3],
    pub eff: Vec<Double>,
    pub basis: Vec<Double>,
    pub cost: Vec<Double>,
    pub half: Vec<Double>,
    pub size: Vec<Double>,
    /// Fills that cost less than on the venues, with the basis and without it.
    pub beat_raw: u64,
    pub beat_adj: u64,
    /// Fills without a reference.
    pub skipped: u64,
}

/// `a - b`, or zero where `b` is the larger.
pub open spec fn since(a: u64, b: u64) -> int {
    if a >= b {
        a - b
    } else {
        0
    }
}

/// The window without the deviations in front that are more than thirty seconds older than
/// `now`.
pub open spec fn recent(w: Seq<(u64, Double)>, now: u64) -> Seq<(u64, Double)>
    decreases w.len(),
{
    if w.len() > 0 && since(now, w[0].0) > BASIS_MS {
        recent(w.skip(1), now)
    } else {
        w
    }
}

/// The deviations of a window.
pub open spec fn devs_of(w: Seq<(u64, Double)>) -> Seq<Double> {
    w.map_values(|e: (u64, Double)| e.1)
}

/// The median of doubles: their quantile of fifty percent, by nearest rank.
pub open spec fn median(v: Seq<Double>) -> Double {
    sorted(v)[nearest_rank(v.len(), 50)]
}

/// The window after a deviation was measured.
pub open spec fn window_after(w: Seq<(u64, Double)>, now: u64, dev: Double) -> Seq<(u64, Double)> {
    recent(w.push((now, dev)), now)
}

/// Whether doubles can be sorted: there is at most one, or none is a NaN.
pub open spec fn sortable(v: Seq<Double>) -> bool {
    v.len() <= 1 || forall|i: int| 0 <= i < v.len() ==> !(#[trigger] v[i]).nan()
}

/// Milliseconds counted up to the largest number.
pub open spec fn more_ms(a: u128, dt: u64) -> u128 {
    if a + dt <= u128::MAX {
        (a + dt) as u128
    } else {
        u128::MAX
    }
}

/// The milliseconds above a threshold after a stretch with the deviation `dev`.
pub open spec fn more_over(a: u128, dt: u64, dev: Double, i: int) -> u128 {
    if threshold(i).below(dev.absolute()) {
        more_ms(a, dt)
    } else {
        a
    }
}

proof fn lemma_recent_keeps_last(w: Seq<(u64, Double)>, now: u64)
    requires
        w.len() > 0,
        w.last().0 == now,
    ensures
        recent(w, now).len() > 0,
        recent(w, now).last() == w.last(),
    decreases w.len(),
{
    if since(now, w[0].0) > BASIS_MS {
        assert(w.len() > 1);
        assert(w.skip(1).last() == w.last());
        lemma_recent_keeps_last(w.skip(1), now);
    }
}

fn above(i: usize, dev: Double) -> (r: bool)
    requires
        i < 3,
    ensures
        r == threshold(i as int).below(dev.absolute()),
{
    let bits: u64 = if i == 0 {
        ONE
    } else if i == 1 {
        TWO
    } else {
        FIVE
    };
    Double { bits }.lt(dev.abs())
}

/// Whether times above the thresholds are in order: each at most the total, and the higher
/// the threshold the less.
pub open spec fn in_order(total: u128, over: Seq<u128>) -> bool {
    over[2] <= over[1] <= over[0] <= total
}

impl Regulator {
    /// What holds of every measurement: the times above the thresholds are in order, every
    /// fill that was recorded has all its costs, and not more of them beat the venues than
    /// there are.
    pub open spec fn consistent(self) -> bool {
        &&& in_order(self.total_ms, self.over_raw@)
        &&& in_order(self.total_ms, self.over_adj@)
        &&& self.basis@.len() == self.eff@.len()
        &&& self.cost@.len() == self.eff@.len()
        &&& self.half@.len() == self.eff@.len()
        &&& self.size@.len() == self.eff@.len()
        &&& self.beat_raw <= self.eff@.len()
        &&& self.beat_adj <= self.eff@.len()
    }

    /// Nothing measured yet.
    pub fn new() -> (r: Regulator)
        ensures
            r.consistent(),
            r.cex.sound(),
            forall|i: int| 0 <= i < 3 ==> (#[trigger] r.cex.hist@[i])@ == Seq::<Quote>::empty(),
            forall|i: int| 0 <= i < 3 ==> (#[trigger] r.cex.lag@[i])@ == Seq::<i128>::empty(),
            r.hl.hist@ == Seq::<Quote>::empty(),
            r.hl_lag@ == Seq::<i128>::empty(),
            r.window@ == Seq::<(u64, Double)>::empty(),
            r.prev is None,
            r.devs@ == Seq::<Double>::empty(),
            r.total_ms == 0,
            r.over_raw@ == seq![0u128, 0u128, 0u128],
            r.over_adj@ == seq![0u128, 0u128, 0u128],
            r.eff@ == Seq::<Double>::empty(),
            r.basis@ == Seq::<Double>::empty(),
            r.cost@ == Seq::<Double>::empty(),
            r.half@ == Seq::<Double>::empty(),
            r.size@ == Seq::<Double>::empty(),
            r.beat_raw == 0,
            r.beat_adj == 0,
            r.skipped == 0,
    {
        let r = Regulator {
            cex: Ref::new(),
            hl: HlBook::new(),
            hl_lag: VecDeque::new(),
            window: VecDeque::new(),
            prev: None,
            devs: Vec::new(),
            total_ms: 0,
            over_raw: [0, 0, 0],
            over_adj: [0, 0, 0],
            eff: Vec::new(),
            basis: Vec::new(),
            cost: Vec::new(),
            half: Vec::new(),
            size: Vec::new(),
            beat_raw: 0,
            beat_adj: 0,
            skipped: 0,
        };
        assert(r.over_raw@ =~= seq![0u128, 0u128, 0u128]);
        assert(r.over_adj@ =~= seq![0u128, 0u128, 0u128]);
        r
    }

    /// Takes in a quote of a venue.
    pub fn quote(&mut self, venue: &str, q: Quote)
        requires
            venue_index(venue@) is Some,
        ensures
            old(self).consistent() ==> final(self).consistent(),
            old(self).cex.sound() && q.sound() ==> final(self).cex.sound(),
            forall|i: int|
                0 <= i < 3 ==> (#[trigger] final(self).cex.hist@[i])@ == (if venue_index(venue@)
                    == Some(i) {
                    pushed(old(self).cex.hist@[i]@, q, BOOK as nat)
                } else {
                    old(self).cex.hist@[i]@
                }),
            forall|i: int|
                0 <= i < 3 ==> (#[trigger] final(self).cex.lag@[i])@ == (if venue_index(venue@)
                    == Some(i) {
                    pushed(old(self).cex.lag@[i]@, q.lag(), LAGS as nat)
                } else {
                    old(self).cex.lag@[i]@
                }),
            *final(self) == (Regulator { cex: final(self).cex, ..*old(self) }),
    {
        self.cex.set(venue, q);
    }

    /// Takes in a quote of the chain, and gives the reference at its time, where there is one.
    pub fn bbo(&mut self, q: Quote) -> (r: Option<RefPoint>)
        requires
            old(self).cex.sound(),
        ensures
            old(self).consistent() ==> final(self).consistent(),
            r == old(self).cex.point_at(q.exch_ms, MAX_AGE_MS),
            final(self).hl.hist@ == pushed(old(self).hl.hist@, q, BOOK as nat),
            final(self).hl_lag@ == pushed(old(self).hl_lag@, q.lag(), LAGS as nat),
            *final(self) == (Regulator {
                hl: final(self).hl,
                hl_lag: final(self).hl_lag,
                ..*old(self)
            }),
    {
        push_bounded(&mut self.hl_lag, q.lag_ms(), LAGS);
        self.hl.set(q);
        self.cex.at(q.exch_ms, MAX_AGE_MS)
    }

    /// Whether a deviation can be taken in: with it, the window can be sorted.
    pub fn can_take(&self, now: u64, dev: Double) -> (r: bool)
        ensures
            r == sortable(devs_of(window_after(self.window@, now, dev))),
    {
        let ghost w = self.window@.push((now, dev));
        let mut i: usize = 0;
        assert(w.skip(0) =~= w);
        while i < self.window.len() && now.saturating_sub(self.window[i].0) > BASIS_MS
            invariant
                w == self.window@.push((now, dev)),
                i <= self.window@.len(),
                recent(w.skip(i as int), now) == window_after(self.window@, now, dev),
            decreases self.window@.len() - i,
        {
            assert(w.skip(i as int).skip(1) =~= w.skip(i + 1));
            i += 1;
        }
        let ghost rest = w.skip(i as int);
        assert(rest[0] == w[i as int]);
        assert(recent(rest, now) == rest);
        let ghost ds = devs_of(rest);
        if i == self.window.len() {
            assert(ds.len() == 1);
            return true;
        }
        let first: usize = i;
        while i < self.window.len()
            invariant
                w == self.window@.push((now, dev)),
                rest == w.skip(first as int),
                ds == devs_of(rest),
                first <= i <= self.window@.len(),
                first < self.window@.len(),
                ds == devs_of(window_after(self.window@, now, dev)),
                forall|j: int| 0 <= j < i - first ==> !(#[trigger] ds[j]).nan(),
            decreases self.window@.len() - i,
        {
            assert(ds[i - first] == self.window@[i as int].1);
            if self.window[i].1.is_nan() {
                return false;
            }
            i += 1;
        }
        assert(ds[ds.len() - 1] == dev);
        !dev.is_nan()
    }

    /// Takes in the deviation of the chain's mid from the reference at `now`, and gives the
    /// stretch since the deviation before, where there is one.
    pub fn deviation(&mut self, now: u64, dev: Double) -> (r: Option<Tick>)
        requires
            sortable(devs_of(window_after(old(self).window@, now, dev))),
        ensures
            old(self).consistent() ==> final(self).consistent(),
            final(self).window@ == window_after(old(self).window@, now, dev),
            final(self).prev == Some((now, dev)),
            final(self).devs@ == old(self).devs@.push(dev),
            *final(self) == (Regulator {
                window: final(self).window,
                prev: final(self).prev,
                devs: final(self).devs,
                ..*old(self)
            }),
            match old(self).prev {
                None => r is None,
                Some(p) => r == Some(
                    Tick {
                        dt_ms: if now >= p.0 {
                            (now - p.0) as u64
                        } else {
                            0
                        },
                        dev: p.1,
                        basis: median(devs_of(window_after(old(self).window@, now, dev))),
                    },
                ),
            },
    {
        let ghost w0 = self.window@;
        self.window.push_back((now, dev));
        proof {
            lemma_recent_keeps_last(w0.push((now, dev)), now);
        }
        while self.window.len() > 0 && now.saturating_sub(self.window[0].0) > BASIS_MS
            invariant
                recent(self.window@, now) == window_after(w0, now, dev),
                w0 == old(self).window@,
                *self == (Regulator { window: self.window, ..*old(self) }),
            decreases self.window@.len(),
        {
            let ghost w = self.window@;
            self.window.pop_front();
            assert(self.window@ =~= w.skip(1));
        }
        let ghost w1 = self.window@;
        let mut ds: Vec<Double> = Vec::new();
        for i in 0..self.window.len()
            invariant
                ds@.len() == i,
                w1 == self.window@,
                forall|j: int| 0 <= j < i ==> #[trigger] ds@[j] == w1[j].1,
        {
            ds.push(self.window[i].1);
        }
        assert(ds@ =~= devs_of(w1));
        let basis = pct(&mut ds, 50);
        let r = match self.prev {
            None => None,
            Some(p) => Some(Tick { dt_ms: now.saturating_sub(p.0), dev: p.1, basis }),
        };
        self.prev = Some((now, dev));
        self.devs.push(dev);
        r
    }

    /// Counts a stretch of time: `adj` is its deviation net of the rolling median.
    pub fn weigh(&mut self, tick: Tick, adj: Double)
        ensures
            old(self).consistent() ==> final(self).consistent(),
            final(self).total_ms == more_ms(old(self).total_ms, tick.dt_ms),
            forall|i: int|
                0 <= i < 3 ==> #[trigger] final(self).over_raw@[i] == more_over(
                    old(self).over_raw@[i],
                    tick.dt_ms,
                    tick.dev,
                    i,
                ),
            forall|i: int|
                0 <= i < 3 ==> #[trigger] final(self).over_adj@[i] == more_over(
                    old(self).over_adj@[i],
                    tick.dt_ms,
                    adj,
                    i,
                ),
            *final(self) == (Regulator {
                total_ms: final(self).total_ms,
                over_raw: final(self).over_raw,
                over_adj: final(self).over_adj,
                ..*old(self)
            }),
    {
        let dt: u128 = tick.dt_ms as u128;
        self.total_ms = self.total_ms.saturating_add(dt);
        for i in 0..3usize
            invariant
                dt == tick.dt_ms,
                forall|j: int|
                    0 <= j < 3 ==> #[trigger] self.over_raw@[j] == (if j < i {
                        more_over(old(self).over_raw@[j], tick.dt_ms, tick.dev, j)
                    } else {
                        old(self).over_raw@[j]
                    }),
                forall|j: int|
                    0 <= j < 3 ==> #[trigger] self.over_adj@[j] == (if j < i {
                        more_over(old(self).over_adj@[j], tick.dt_ms, adj, j)
                    } else {
                        old(self).over_adj@[j]
                    }),
                *self == (Regulator {
                    total_ms: more_ms(old(self).total_ms, tick.dt_ms),
                    over_raw: self.over_raw,
                    over_adj: self.over_adj,
                    ..*old(self)
                }),
        {
            if above(i, tick.dev) {
                self.over_raw[i] = self.over_raw[i].saturating_add(dt);
            }
            if above(i, adj) {
                self.over_adj[i] = self.over_adj[i].saturating_add(dt);
            }
        }
    }

    /// Takes in a fill at `exch_ms`, and gives the reference and the chain's own mid that it
    /// is measured against: the mid of the last quote strictly before it. A fill that lacks
    /// either is skipped.
    pub fn fill(&mut self, exch_ms: u64) -> (r: Option<(RefPoint, Double)>)
        requires
            old(self).cex.sound(),
        ensures
            old(self).consistent() ==> final(self).consistent(),
            match (
                old(self).cex.point_at(exch_ms, MAX_AGE_MS),
                mid_of(latest_before(old(self).hl.hist@, exch_ms)),
            ) {
                (Some(point), Some(mid)) => r == Some((point, mid)) && *final(self) == *old(self),
                _ => r is None && *final(self) == (Regulator {
                    skipped: one_more(old(self).skipped),
                    ..*old(self)
                }),
            },
    {
        let point = self.cex.at(exch_ms, MAX_AGE_MS);
        let mid = self.hl.mid_before(exch_ms);
        match (point, mid) {
            (Some(p), Some(m)) => Some((p, m)),
            _ => {
                self.skipped = self.skipped.saturating_add(1);
                None
            },
        }
    }

    /// Records what a fill cost. It beats the venues where it cost less than they would have,
    /// fees and all.
    pub fn record(&mut self, c: Cost)
        ensures
            old(self).consistent() ==> final(self).consistent(),
            final(self).eff@ == old(self).eff@.push(c.eff),
            final(self).basis@ == old(self).basis@.push(c.basis),
            final(self).cost@ == old(self).cost@.push(c.cost),
            final(self).half@ == old(self).half@.push(c.half),
            final(self).size@ == old(self).size@.push(c.size),
            final(self).beat_raw == (if c.all_in.below(c.cex_all_in) {
                one_more(old(self).beat_raw)
            } else {
                old(self).beat_raw
            }),
            final(self).beat_adj == (if c.all_in_neutral.below(c.cex_all_in) {
                one_more(old(self).beat_adj)
            } else {
                old(self).beat_adj
            }),
            *final(self) == (Regulator {
                eff: final(self).eff,
                basis: final(self).basis,
                cost: final(self).cost,
                half: final(self).half,
                size: final(self).size,
                beat_raw: final(self).beat_raw,
                beat_adj: final(self).beat_adj,
                ..*old(self)
            }),
    {
        if c.all_in.lt(c.cex_all_in) {
            self.beat_raw = self.beat_raw.saturating_add(1);
        }
        if c.all_in_neutral.lt(c.cex_all_in) {
            self.beat_adj = self.beat_adj.saturating_add(1);
        }
        self.eff.push(c.eff);
        self.basis.push(c.basis);
        self.cost.push(c.cost);
        self.half.push(c.half);
        self.size.push(c.size);
        assert(self.eff.len() == self.eff@.len());
    }
}

// ---- laws ----

/// Whether the stamps of a window do not go back, and none is later than `now`.
pub open spec fn in_window_order(w: Seq<(u64, Double)>, now: u64) -> bool {
    &&& forall|i: int, j: int|
        0 <= i <= j < w.len() ==> (#[trigger] w[i]).0 <= (#[trigger] w[j]).0
    &&& forall|i: int| 0 <= i < w.len() ==> (#[trigger] w[i]).0 <= now
}

/// On a clock that does not go back, the rolling basis is taken over the deviations of the
/// last thirty seconds: all of them, and no others.
pub proof fn law_the_basis_is_of_thirty_seconds(w: Seq<(u64, Double)>, now: u64, dev: Double)
    requires
        in_window_order(w, now),
    ensures
        exists|n: int|
            0 <= n <= w.len() && window_after(w, now, dev) == #[trigger] w.push((now, dev)).skip(n)
                && (forall|i: int|
                0 <= i < w.len() ==> (n <= i <==> now - (#[trigger] w[i]).0 <= BASIS_MS)),
{
    lemma_recent_is_a_suffix(w.push((now, dev)), now);
    let all = w.push((now, dev));
    let n = choose|n: int|
        0 <= n <= all.len() && recent(all, now) == #[trigger] all.skip(n) && (forall|i: int|
            0 <= i < n ==> now - (#[trigger] all[i]).0 > BASIS_MS) && (n < all.len() ==> now
            - all[n].0 <= BASIS_MS);
    assert(all[w.len() as int].0 == now);
    assert(n <= w.len());
    assert forall|i: int| 0 <= i < n implies now - (#[trigger] w[i]).0 > BASIS_MS by {
        assert(all[i] == w[i]);
    }
    assert forall|i: int| n <= i < w.len() implies now - (#[trigger] w[i]).0 <= BASIS_MS by {
        assert(all[n] == w[n]);
    }
    assert(window_after(w, now, dev) == w.push((now, dev)).skip(n));
}

proof fn lemma_recent_is_a_suffix(w: Seq<(u64, Double)>, now: u64)
    requires
        in_window_order(w, now),
    ensures
        exists|n: int|
            0 <= n <= w.len() && recent(w, now) == #[trigger] w.skip(n) && (forall|i: int|
                0 <= i < n ==> now - (#[trigger] w[i]).0 > BASIS_MS) && (n < w.len() ==> now
                - w[n].0 <= BASIS_MS),
    decreases w.len(),
{
    if w.len() > 0 && since(now, w[0].0) > BASIS_MS {
        let rest = w.skip(1);
        assert forall|i: int, j: int| 0 <= i <= j < rest.len() implies (#[trigger] rest[i]).0 <= (
        #[trigger] rest[j]).0 by {
            assert(rest[i] == w[i + 1] && rest[j] == w[j + 1]);
        }
        assert forall|i: int| 0 <= i < rest.len() implies (#[trigger] rest[i]).0 <= now by {
            assert(rest[i] == w[i + 1]);
        }
        lemma_recent_is_a_suffix(rest, now);
        let n = choose|n: int|
            0 <= n <= rest.len() && recent(rest, now) == #[trigger] rest.skip(n) && (forall|i: int|
                0 <= i < n ==> now - (#[trigger] rest[i]).0 > BASIS_MS) && (n < rest.len() ==> now
                - rest[n].0 <= BASIS_MS);
        assert(rest.skip(n) =~= w.skip(n + 1));
        assert forall|i: int| 0 <= i < n + 1 implies now - (#[trigger] w[i]).0 > BASIS_MS by {
            if i > 0 {
                assert(rest[i - 1] == w[i]);
            }
        }
        assert(recent(w, now) == w.skip(n + 1));
    } else {
        assert(w.skip(0) =~= w);
        assert(recent(w, now) == w.skip(0));
    }
}

/// Whether a deviation is a number more than `bps` basis points from zero, to either side. One
/// basis point has two to the power 1074 units.
pub open spec fn is_beyond(dev: Double, bps: int) -> bool {
    is_number(dev) && (units(dev) > bps * pow2(1074) || -units(dev) > bps * pow2(1074))
}

/// The thresholds are one, two and five basis points, to either side of zero.
pub proof fn law_thresholds_are_one_two_and_five(dev: Double)
    ensures
        threshold(0).below(dev.absolute()) <==> is_beyond(dev, 1),
        threshold(1).below(dev.absolute()) <==> is_beyond(dev, 2),
        threshold(2).below(dev.absolute()) <==> is_beyond(dev, 5),
        units(threshold(0)) == pow2(1074),
        units(threshold(1)) == 2 * pow2(1074),
        units(threshold(2)) == 5 * pow2(1074),
{
    law_constants_are_their_numbers(dev);
    law_absolute_is_the_distance_from_zero(dev);
    law_doubles_compare_as_numbers(threshold(0), dev.absolute());
    law_doubles_compare_as_numbers(threshold(1), dev.absolute());
    law_doubles_compare_as_numbers(threshold(2), dev.absolute());
}

/// A stretch of time counts in full towards the total and towards each threshold that its
/// deviation exceeds, and towards no other: as it is for the raw times, net of the rolling
/// median for the adjusted ones.
pub proof fn law_the_clock_counts_stretches_in_full(
    r: &mut Regulator,
    tick: Tick,
    adj: Double,
    i: int,
)
    requires
        call_ensures(Regulator::weigh, (r, tick, adj), ()),
        0 <= i < 3,
        old(r).total_ms + tick.dt_ms <= u128::MAX,
        old(r).over_raw@[i] + tick.dt_ms <= u128::MAX,
        old(r).over_adj@[i] + tick.dt_ms <= u128::MAX,
    ensures
        ({
            let bps: int = if i == 0 {
                1
            } else if i == 1 {
                2
            } else {
                5
            };
            &&& final(r).total_ms == old(r).total_ms + tick.dt_ms
            &&& is_beyond(tick.dev, bps) ==> final(r).over_raw@[i] == old(r).over_raw@[i]
                + tick.dt_ms
            &&& !is_beyond(tick.dev, bps) ==> final(r).over_raw@[i] == old(r).over_raw@[i]
            &&& is_beyond(adj, bps) ==> final(r).over_adj@[i] == old(r).over_adj@[i] + tick.dt_ms
            &&& !is_beyond(adj, bps) ==> final(r).over_adj@[i] == old(r).over_adj@[i]
        }),
{
    law_thresholds_are_one_two_and_five(tick.dev);
    law_thresholds_are_one_two_and_five(adj);
    let a = final(r).over_raw@[i];
    let b = final(r).over_adj@[i];
}

/// A deviation holds until the next: the stretch between two has the first one's deviation and
/// the time from the one to the other. Its basis is the median of all deviations from at most
/// thirty seconds before the second, the second one included.
pub proof fn law_a_deviation_holds_until_the_next(
    r: &mut Regulator,
    now: u64,
    dev: Double,
    t: Option<Tick>,
    i: int,
)
    requires
        call_ensures(Regulator::deviation, (r, now, dev), t),
        in_window_order(old(r).window@, now),
        old(r).window@.len() < usize::MAX,
    ensures
        final(r).prev == Some((now, dev)),
        final(r).devs@ == old(r).devs@.push(dev),
        t is Some <==> old(r).prev is Some,
        t matches Some(x) ==> x.dev == (old(r).prev->0).1 && (now >= (old(r).prev->0).0
            ==> x.dt_ms == now - (old(r).prev->0).0) && (now < (old(r).prev->0).0 ==> x.dt_ms == 0),
        exists|n: int|
            0 <= n <= old(r).window@.len() && final(r).window@ == #[trigger] old(r).window@.push(
                (now, dev),
            ).skip(n) && (forall|k: int|
                0 <= k < old(r).window@.len() ==> (n <= k <==> now - (
                #[trigger] old(r).window@[k]).0 <= 30_000)),
        t matches Some(x) ==> {
            let ds = final(r).window@.map_values(|e: (u64, Double)| e.1);
            0 <= i < ds.len() && 200 * i - 100 <= 2 * (ds.len() - 1) * 50 < 200 * i + 100
                ==> x.basis == sorted(ds)[i]
        },
{
    law_the_basis_is_of_thirty_seconds(old(r).window@, now, dev);
    let n = choose|n: int|
        0 <= n <= old(r).window@.len() && window_after(old(r).window@, now, dev)
            == #[trigger] old(r).window@.push((now, dev)).skip(n) && (forall|i: int|
            0 <= i < old(r).window@.len() ==> (n <= i <==> now - (#[trigger] old(r).window@[i]).0
                <= BASIS_MS));
    assert(final(r).window@ == old(r).window@.push((now, dev)).skip(n));
    let ds = devs_of(final(r).window@);
    assert(ds.len() > 0);
    law_ranks_are_nearest(ds.len(), 50, i);
}

/// A fill is measured against the venues' reference at its time, of quotes at most a second and
/// a half old, and against the chain's mid before it; one that lacks either is skipped, and
/// counted as such.
pub proof fn law_fills_are_measured_or_skipped(
    r: &mut Regulator,
    t: u64,
    x: Option<(RefPoint, Double)>,
    point: Option<RefPoint>,
    mid: Option<Double>,
)
    requires
        call_ensures(Regulator::fill, (r, t), x),
        call_ensures(Ref::at, (&old(r).cex, t, 1500), point),
        call_ensures(HlBook::mid_before, (&old(r).hl, t), mid),
    ensures
        x is Some <==> point is Some && mid is Some,
        x matches Some(y) ==> point == Some(y.0) && mid == Some(y.1) && *final(r) == *old(r),
        x is None && old(r).skipped < u64::MAX ==> *final(r) == (Regulator {
            skipped: (old(r).skipped + 1) as u64,
            ..*old(r)
        }),
{
}

/// What a fill cost is recorded as it is. It beats the venues where its cost with the chain's
/// fee is below theirs with their own; and without the basis where its half-spread with the fee
/// is.
pub proof fn law_costs_are_recorded(r: &mut Regulator, c: Cost)
    requires
        call_ensures(Regulator::record, (r, c), ()),
        old(r).beat_raw < u64::MAX,
        old(r).beat_adj < u64::MAX,
    ensures
        final(r).eff@ == old(r).eff@.push(c.eff),
        final(r).basis@ == old(r).basis@.push(c.basis),
        final(r).cost@ == old(r).cost@.push(c.cost),
        final(r).half@ == old(r).half@.push(c.half),
        final(r).size@ == old(r).size@.push(c.size),
        final(r).beat_raw - old(r).beat_raw == (if is_number(c.all_in) && is_number(c.cex_all_in)
            && units(c.all_in) < units(c.cex_all_in) {
            1int
        } else {
            0
        }),
        final(r).beat_adj - old(r).beat_adj == (if is_number(c.all_in_neutral) && is_number(
            c.cex_all_in,
        ) && units(c.all_in_neutral) < units(c.cex_all_in) {
            1int
        } else {
            0
        }),
{
    law_doubles_compare_as_numbers(c.all_in, c.cex_all_in);
    law_doubles_compare_as_numbers(c.all_in_neutral, c.cex_all_in);
}

/// A quote of the chain goes to its book and its lag to the lags, and is compared with the
/// venues' reference at its own time, of quotes at most a second and a half old.
pub proof fn law_quotes_of_the_chain_are_compared(
    r: &mut Regulator,
    q: Quote,
    x: Option<RefPoint>,
    point: Option<RefPoint>,
)
    requires
        call_ensures(Regulator::bbo, (r, q), x),
        call_ensures(Ref::at, (&old(r).cex, q.exch_ms, 1500), point),
    ensures
        x == point,
        final(r).cex == old(r).cex,
        old(r).hl.hist@.len() < 400 ==> final(r).hl.hist@ == old(r).hl.hist@.push(q),
        old(r).hl.hist@.len() == 400 ==> final(r).hl.hist@ == old(r).hl.hist@.skip(1).push(q),
        old(r).hl_lag@.len() < 2000 ==> final(r).hl_lag@ == old(r).hl_lag@.push(
            (q.recv_wall_ms - q.exch_ms) as i128,
        ),
        old(r).hl_lag@.len() == 2000 ==> final(r).hl_lag@ == old(r).hl_lag@.skip(1).push(
            (q.recv_wall_ms - q.exch_ms) as i128,
        ),
{
    let lag = (q.recv_wall_ms - q.exch_ms) as i128;
    assert(old(r).hl.hist@.len() == 400 ==> old(r).hl.hist@.push(q).skip(1) =~= old(
        r,
    ).hl.hist@.skip(1).push(q));
    assert(old(r).hl_lag@.len() == 2000 ==> old(r).hl_lag@.push(lag).skip(1) =~= old(
        r,
    ).hl_lag@.skip(1).push(lag));
}

/// A quote of a venue is taken in as the reference takes it in, and changes nothing else.
pub proof fn law_quotes_of_venues_go_to_the_reference(
    r: &mut Regulator,
    venue: &str,
    q: Quote,
    v: int,
)
    requires
        call_ensures(Regulator::quote, (r, venue, q), ()),
        0 <= v < 3,
    ensures
        *final(r) == (Regulator { cex: final(r).cex, ..*old(r) }),
        venue_index(venue@) != Some(v) ==> final(r).cex.hist@[v]@ == old(r).cex.hist@[v]@,
        venue_index(venue@) == Some(v) && old(r).cex.hist@[v]@.len() < 400
            ==> final(r).cex.hist@[v]@ == old(r).cex.hist@[v]@.push(q),
        venue_index(venue@) == Some(v) && old(r).cex.hist@[v]@.len() == 400
            ==> final(r).cex.hist@[v]@ == old(r).cex.hist@[v]@.skip(1).push(q),
        venue_index(venue@) != Some(v) ==> final(r).cex.lag@[v]@ == old(r).cex.lag@[v]@,
        venue_index(venue@) == Some(v) && old(r).cex.lag@[v]@.len() < 2000
            ==> final(r).cex.lag@[v]@ == old(r).cex.lag@[v]@.push(
            (q.recv_wall_ms - q.exch_ms) as i128,
        ),
        venue_index(venue@) == Some(v) && old(r).cex.lag@[v]@.len() == 2000
            ==> final(r).cex.lag@[v]@ == old(r).cex.lag@[v]@.skip(1).push(
            (q.recv_wall_ms - q.exch_ms) as i128,
        ),
{
    let h = final(r).cex.hist@[v];
    let l = final(r).cex.lag@[v];
    let lag = (q.recv_wall_ms - q.exch_ms) as i128;
    assert(old(r).cex.lag@[v]@.len() == 2000 ==> old(r).cex.lag@[v]@.push(lag).skip(1) =~= old(
        r,
    ).cex.lag@[v]@.skip(1).push(lag));
    assert(old(r).cex.hist@[v]@.len() == 400 ==> old(r).cex.hist@[v]@.push(q).skip(1) =~= old(
        r,
    ).cex.hist@[v]@.skip(1).push(q));
}

/// A deviation cannot be taken in only where there is a NaN among several that are to be sorted.
pub proof fn law_nans_cannot_be_sorted(r: Regulator, now: u64, dev: Double, ok: bool)
    requires
        call_ensures(Regulator::can_take, (&r, now, dev), ok),
    ensures
        is_number(dev) && (forall|i: int|
            0 <= i < r.window@.len() ==> is_number((#[trigger] r.window@[i]).1)) ==> ok,
        r.window@.len() == 0 ==> ok,
        !is_number(dev) && r.window@.len() > 0 && in_window_order(r.window@, now) && now
            - r.window@.last().0 <= 30_000 ==> !ok,
{
    let w = r.window@;
    let all = w.push((now, dev));
    lemma_recent_is_a_part(all, now);
    let ds = devs_of(window_after(w, now, dev));
    let kept = window_after(w, now, dev);
    if is_number(dev) && (forall|i: int|
        0 <= i < r.window@.len() ==> is_number((#[trigger] r.window@[i]).1)) {
        assert forall|i: int| 0 <= i < ds.len() implies !(#[trigger] ds[i]).nan() by {
            assert(kept.contains(kept[i]));
            let k = choose|k: int| 0 <= k < all.len() && #[trigger] all[k] == kept[i];
            if k < w.len() {
                assert(is_number(w[k].1));
            }
            law_doubles_compare_as_numbers(ds[i], ds[i]);
        }
    }
    law_doubles_compare_as_numbers(dev, dev);
    lemma_recent_keeps_last(all, now);
    assert(ds.last() == dev);
    if in_window_order(w, now) && w.len() > 0 && now - w.last().0 <= 30_000 {
        law_the_basis_is_of_thirty_seconds(w, now, dev);
        let n = choose|n: int|
            0 <= n <= w.len() && window_after(w, now, dev) == #[trigger] w.push((now, dev)).skip(n)
                && (forall|i: int|
                0 <= i < w.len() ==> (n <= i <==> now - (#[trigger] w[i]).0 <= BASIS_MS));
        assert(w[w.len() - 1] == w.last());
        assert(n <= w.len() - 1);
        assert(ds.len() >= 2);
    }
}

/// What is recent is a part of the window.
proof fn lemma_recent_is_a_part(w: Seq<(u64, Double)>, now: u64)
    ensures
        recent(w, now).len() <= w.len(),
        forall|x: (u64, Double)| #[trigger]
            recent(w, now).contains(x) ==> exists|k: int| 0 <= k < w.len() && #[trigger] w[k] == x,
    decreases w.len(),
{
    if w.len() > 0 && since(now, w[0].0) > BASIS_MS {
        let rest = w.skip(1);
        lemma_recent_is_a_part(rest, now);
        assert forall|x: (u64, Double)| #[trigger] recent(w, now).contains(x) implies exists|k: int|
            0 <= k < w.len() && #[trigger] w[k] == x by {
            let k = choose|k: int| 0 <= k < rest.len() && #[trigger] rest[k] == x;
            assert(w[k + 1] == x);
        }
    } else {
        assert forall|x: (u64, Double)| #[trigger] recent(w, now).contains(x) implies exists|k: int|
            0 <= k < w.len() && #[trigger] w[k] == x by {
            let k = choose|k: int| 0 <= k < w.len() && w[k] == x;
            assert(w[k] == x);
        }
    }
}

/// Whether a deviation stamped `t` is older than thirty seconds at `now`.
pub open spec fn is_old(t: u64, now: u64) -> bool {
    now > t && now - t > 30_000
}

proof fn lemma_recent_drops_the_old(w: Seq<(u64, Double)>, now: u64) -> (n: int)
    ensures
        0 <= n <= w.len(),
        recent(w, now) == w.skip(n),
        forall|k: int| 0 <= k < n ==> is_old((#[trigger] w[k]).0, now),
        n < w.len() ==> !is_old(w[n].0, now),
    decreases w.len(),
{
    if w.len() > 0 && since(now, w[0].0) > BASIS_MS {
        let m = lemma_recent_drops_the_old(w.skip(1), now);
        assert(w.skip(1).skip(m) =~= w.skip(m + 1));
        assert forall|k: int| 0 <= k < m + 1 implies is_old((#[trigger] w[k]).0, now) by {
            if k > 0 {
                assert(w.skip(1)[k - 1] == w[k]);
            }
        }
        m + 1
    } else {
        assert(w.skip(0) =~= w);
        0
    }
}

/// Whatever the stamps, the window loses from its front the deviations that are older than thirty
/// seconds, up to the first that is not, and no others; and the new one is its last. A stretch has
/// the deviation before, the time since, and the median of the window.
pub proof fn law_old_deviations_leave_from_the_front(
    r: &mut Regulator,
    now: u64,
    dev: Double,
    t: Option<Tick>,
    i: int,
)
    requires
        call_ensures(Regulator::deviation, (r, now, dev), t),
    ensures
        t is Some <==> old(r).prev is Some,
        t matches Some(x) ==> x.dev == (old(r).prev->0).1 && x.dt_ms == (if now >= (old(
            r,
        ).prev->0).0 {
            now - (old(r).prev->0).0
        } else {
            0
        }),
        t matches Some(x) ==> {
            let ds = final(r).window@.map_values(|e: (u64, Double)| e.1);
            0 <= i < ds.len() && 200 * i - 100 <= 2 * (ds.len() - 1) * 50 < 200 * i + 100
                ==> x.basis == sorted(ds)[i]
        },
        final(r).window@.len() > 0,
        final(r).window@.last() == (now, dev),
        exists|n: int|
            0 <= n <= old(r).window@.len() && final(r).window@ == #[trigger] old(r).window@.push(
                (now, dev),
            ).skip(n) && (forall|k: int|
                0 <= k < n ==> is_old((#[trigger] old(r).window@[k]).0, now)) && (n < old(
                r,
            ).window@.len() ==> !is_old(old(r).window@[n].0, now)),
        *final(r) == (Regulator {
            window: final(r).window,
            prev: Some((now, dev)),
            devs: final(r).devs,
            ..*old(r)
        }),
{
    let w = old(r).window@;
    let all = w.push((now, dev));
    lemma_recent_keeps_last(all, now);
    let n = lemma_recent_drops_the_old(all, now);
    assert(n <= w.len());
    assert forall|k: int| 0 <= k < n implies is_old((#[trigger] w[k]).0, now) by {
        assert(all[k] == w[k]);
    }
    if n < w.len() {
        assert(all[n] == w[n]);
    }
    assert(final(r).window@ == w.push((now, dev)).skip(n));
    law_ranks_are_nearest(devs_of(final(r).window@).len(), 50, i);
}

/// A deviation can be taken in exactly where the window that it makes has no other in it, or holds
/// numbers only.
pub proof fn law_windows_of_numbers_can_be_sorted(r: Regulator, now: u64, dev: Double, ok: bool)
    requires
        call_ensures(Regulator::can_take, (&r, now, dev), ok),
    ensures
        ok <==> window_after(r.window@, now, dev).len() <= 1 || forall|i: int|
            0 <= i < window_after(r.window@, now, dev).len() ==> is_number(
                (#[trigger] window_after(r.window@, now, dev)[i]).1,
            ),
{
    let w = window_after(r.window@, now, dev);
    let ds = devs_of(w);
    assert forall|i: int| 0 <= i < w.len() implies (is_number((#[trigger] w[i]).1)
        <==> !ds[i].nan()) by {
        law_doubles_compare_as_numbers(w[i].1, w[i].1);
    }
    if ok && w.len() > 1 {
        assert forall|i: int| 0 <= i < w.len() implies is_number((#[trigger] w[i]).1) by {
            assert(!ds[i].nan());
        }
    }
}

/// Nothing is measured at the start.
pub proof fn law_measurements_start_from_nothing(r: Regulator, i: int)
    requires
        call_ensures(Regulator::new, (), r),
        0 <= i < 3,
    ensures
        r.total_ms == 0 && r.over_raw@[i] == 0 && r.over_adj@[i] == 0,
        r.beat_raw == 0 && r.beat_adj == 0 && r.skipped == 0,
        r.eff@.len() == 0 && r.basis@.len() == 0 && r.cost@.len() == 0 && r.half@.len() == 0
            && r.size@.len() == 0 && r.devs@.len() == 0 && r.window@.len() == 0,
        r.hl.hist@.len() == 0 && r.hl_lag@.len() == 0 && r.cex.hist@[i]@.len() == 0
            && r.cex.lag@[i]@.len() == 0,
        r.prev is None,
{
    let h = r.cex.hist@[i];
    let l = r.cex.lag@[i];
}

} // verus!
