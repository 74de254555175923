//! Quotes and trades as the venues send them, and what is kept of them.
//!
//! Every event carries `exch_ms` (the venue's own millisecond clock) and `recv_wall_ms`
//! (local wall clock at frame arrival). The two are never subtracted except for the
//! lag, evidence of delivery delay and skew.
use vstd::prelude::*;

use std::collections::VecDeque;

use crate::double::{
    is_number, law_constants_are_their_numbers, law_doubles_compare_as_numbers,
    law_the_smaller_is_the_least, units, Double, MAX, NAN, ZERO,
};
use crate::order::{
    ascending, ints, is_order, law_ranks_are_nearest, lemma_nearest_rank, lemma_order_exists,
    lemma_orders_keep_counts, lemma_same_ranks, nearest_rank, order_of, precedes, quantile, rank,
    rises, stable_order,
};
use crate::text::same;

pub use crate::clock::{deadline, wall_ms};

verus! {

/// The best bid and ask of a venue at one moment.
///
/// `mid` is `(bid + ask) / 2` and `half_bps` is `(ask - bid) / mid / 2 * 1e4`, each in double
/// arithmetic; who builds a quote computes them.
#[derive(Clone, Copy, Debug)]
pub struct Quote {
    pub bid: Double,
    pub ask: Double,
    pub mid: Double,
    pub half_bps: Double,
    pub exch_ms: u64,
    pub recv_wall_ms: u64,
}

impl Quote {
    /// A positive bid below the ask.
    pub open spec fn tradable(self) -> bool {
        (Double { bits: ZERO }).below(self.bid) && self.bid.below(self.ask)
    }

    /// A tradable quote has a mid.
    pub open spec fn sound(self) -> bool {
        self.tradable() ==> !self.mid.nan()
    }

    /// How long after its stamp the quote arrived, in milliseconds; negative where the venue's
    /// clock is ahead.
    pub open spec fn lag(self) -> i128 {
        (self.recv_wall_ms - self.exch_ms) as i128
    }

    /// How long after its stamp the quote arrived.
    pub fn lag_ms(&self) -> (r: i128)
        ensures
            r == self.recv_wall_ms - self.exch_ms,
            r == self.lag(),
    {
        self.recv_wall_ms as i128 - self.exch_ms as i128
    }

    /// The middle between bid and ask.
    pub fn mid(&self) -> (r: Double)
        ensures
            r == self.mid,
    {
        self.mid
    }

    fn is_tradable(&self) -> (r: bool)
        ensures
            r == self.tradable(),
    {
        Double { bits: ZERO }.lt(self.bid) && self.bid.lt(self.ask)
    }
}

// ---- bounded histories ----

/// A history of at most `cap` items after `x` is appended: the oldest makes room.
pub open spec fn pushed<T>(s: Seq<T>, x: T, cap: nat) -> Seq<T> {
    if s.len() + 1 > cap {
        s.push(x).skip(1)
    } else {
        s.push(x)
    }
}

pub(crate) fn push_bounded<T>(h: &mut VecDeque<T>, x: T, cap: usize)
    ensures
        final(h)@ == pushed(old(h)@, x, cap as nat),
{
    h.push_back(x);
    if h.len() > cap {
        h.pop_front();
    }
    assert(h@ =~= pushed(old(h)@, x, cap as nat));
}

/// The last quote of a history that is stamped `t` or earlier.
pub open spec fn latest_at(h: Seq<Quote>, t: u64) -> Option<Quote>
    decreases h.len(),
{
    if h.len() == 0 {
        None
    } else if h.last().exch_ms <= t {
        Some(h.last())
    } else {
        latest_at(h.drop_last(), t)
    }
}

/// The last quote of a history that is stamped earlier than `t`.
pub open spec fn latest_before(h: Seq<Quote>, t: u64) -> Option<Quote>
    decreases h.len(),
{
    if h.len() == 0 {
        None
    } else if h.last().exch_ms < t {
        Some(h.last())
    } else {
        latest_before(h.drop_last(), t)
    }
}

fn find_at(h: &VecDeque<Quote>, t: u64) -> (r: Option<Quote>)
    ensures
        r == latest_at(h@, t),
{
    let mut n: usize = h.len();
    assert(h@.take(n as int) =~= h@);
    while n > 0
        invariant
            n <= h@.len(),
            latest_at(h@, t) == latest_at(h@.take(n as int), t),
        decreases n,
    {
        let q = h[n - 1];
        assert(h@.take(n as int).drop_last() =~= h@.take(n - 1));
        if q.exch_ms <= t {
            return Some(q);
        }
        n -= 1;
    }
    None
}

fn find_before(h: &VecDeque<Quote>, t: u64) -> (r: Option<Quote>)
    ensures
        r == latest_before(h@, t),
{
    let mut n: usize = h.len();
    assert(h@.take(n as int) =~= h@);
    while n > 0
        invariant
            n <= h@.len(),
            latest_before(h@, t) == latest_before(h@.take(n as int), t),
        decreases n,
    {
        let q = h[n - 1];
        assert(h@.take(n as int).drop_last() =~= h@.take(n - 1));
        if q.exch_ms < t {
            return Some(q);
        }
        n -= 1;
    }
    None
}

/// The most quotes that a book keeps.
pub const BOOK: usize = 400;

/// The most lags that are kept for a feed.
pub const LAGS: usize = 2000;

// ---- the venues' reference ----

/// Per-venue quote history keyed by the venue's own timestamp.
///
/// The reference at fill time T is built from each venue's latest quote with
/// `exch_ms <= T`. This is a cross-clock join and is only valid while the exchanges' clocks
/// agree with each other; the lags are the evidence.
///
/// Composite mid is the median of venue mids; the spread is the tightest single-venue
/// spread. A cross-venue max-bid/min-ask composite crosses itself whenever quotes are a few
/// ms apart and yields negative spreads.
pub struct Ref {
    pub hist: [VecDeque<Quote>; 3],
    /// The lags of each venue's quotes.
    pub lag: [VecDeque<i128>; 3],
}

/// The position of a venue in `Ref`.
pub open spec fn venue_index(venue: Seq<char>) -> Option<int> {
    if venue == "binance"@ {
        Some(0)
    } else if venue == "bybit"@ {
        Some(1)
    } else if venue == "okx"@ {
        Some(2)
    } else {
        None
    }
}

fn index_of_venue(venue: &str) -> (r: Option<usize>)
    ensures
        match r {
            Some(i) => venue_index(venue@) == Some(i as int) && i < 3,
            None => venue_index(venue@) is None,
        },
{
    if same(venue, "binance") {
        Some(0)
    } else if same(venue, "bybit") {
        Some(1)
    } else if same(venue, "okx") {
        Some(2)
    } else {
        None
    }
}

/// The name of a venue by its position in `Ref`.
pub fn venue(i: usize) -> (r: &'static str)
    requires
        i < 3,
    ensures
        venue_index(r@) == Some(i as int),
{
    proof {
        reveal_strlit("binance");
        reveal_strlit("bybit");
        reveal_strlit("okx");
        assert("binance"@[1] != "bybit"@[1]);
        assert("binance"@[0] != "okx"@[0]);
        assert("bybit"@[0] != "okx"@[0]);
    }
    if i == 0 {
        "binance"
    } else if i == 1 {
        "bybit"
    } else {
        "okx"
    }
}

/// The reference at one moment.
///
/// The composite mid is the median of the venues' mids: half the sum of the two in the middle,
/// `low` and `high`, which are the same where their number is odd. Who takes the reference
/// computes it.
#[derive(Clone, Copy, Debug)]
pub struct RefPoint {
    pub low: Double,
    pub high: Double,
    pub half_spread_bps: Double,
    pub venues: usize,
}

/// The quote that a venue's history contributes to the reference at `t`: its latest one of
/// `t` or earlier, where that is at most `max_age` old and tradable.
pub open spec fn contribution(h: Seq<Quote>, t: u64, max_age: u64) -> Option<Quote> {
    match latest_at(h, t) {
        Some(q) => if t - q.exch_ms <= max_age && q.tradable() {
            Some(q)
        } else {
            None
        },
        None => None,
    }
}

/// The contributions of the first `n` venues, in the order of the venues.
pub open spec fn contributions(h: Seq<VecDeque<Quote>>, n: int, t: u64, max_age: u64) -> Seq<Quote>
    decreases n,
{
    if n <= 0 {
        Seq::empty()
    } else {
        let rest = contributions(h, n - 1, t, max_age);
        match contribution(h[n - 1]@, t, max_age) {
            Some(q) => rest.push(q),
            None => rest,
        }
    }
}

/// The keys by which the mids of quotes are ordered.
pub open spec fn mid_keys(qs: Seq<Quote>) -> Seq<int> {
    qs.map_values(|q: Quote| q.mid.key())
}

/// The mid at a place of the ascending order of the mids.
pub open spec fn ranked_mid(qs: Seq<Quote>, place: int) -> Double {
    qs[order_of(mid_keys(qs))[place] as int].mid
}

/// The tightest half-spread of the quotes.
pub open spec fn tightest(qs: Seq<Quote>) -> Double
    decreases qs.len(),
{
    if qs.len() == 0 {
        Double { bits: MAX }
    } else {
        tightest(qs.drop_last()).smaller(qs.last().half_bps)
    }
}

/// The reference that the given quotes make up.
pub open spec fn composite_of(qs: Seq<Quote>) -> Option<RefPoint> {
    if qs.len() == 0 {
        None
    } else {
        Some(
            RefPoint {
                low: ranked_mid(qs, (qs.len() - 1) / 2),
                high: ranked_mid(qs, qs.len() as int / 2),
                half_spread_bps: tightest(qs),
                venues: qs.len() as usize,
            },
        )
    }
}

/// Combines the quotes of several venues: the mids in the middle, the tightest half-spread.
pub fn composite(qs: &Vec<Quote>) -> (r: Option<RefPoint>)
    requires
        qs@.len() <= 1 || forall|i: int| 0 <= i < qs@.len() ==> !(#[trigger] qs@[i]).mid.nan(),
    ensures
        r == composite_of(qs@),
{
    if qs.len() == 0 {
        return None;
    }
    let mut keys: Vec<i128> = Vec::new();
    let mut half = Double { bits: MAX };
    assert(qs@.take(0) =~= Seq::empty());
    for i in 0..qs.len()
        invariant
            keys@.len() == i,
            forall|j: int| 0 <= j < i ==> #[trigger] keys@[j] == qs@[j].mid.key(),
            half == tightest(qs@.take(i as int)),
    {
        keys.push(qs[i].mid.order_key());
        half = half.min(qs[i].half_bps);
        assert(qs@.take(i + 1).drop_last() =~= qs@.take(i as int));
    }
    assert(qs@.take(qs@.len() as int) =~= qs@);
    assert(ints(keys@) =~= mid_keys(qs@));
    let p = stable_order(&keys);
    let low: usize = p[(qs.len() - 1) / 2];
    let high: usize = p[qs.len() / 2];
    Some(
        RefPoint {
            low: qs[low].mid,
            high: qs[high].mid,
            half_spread_bps: half,
            venues: qs.len(),
        },
    )
}

impl Ref {
    /// Every quote of the history is sound.
    pub open spec fn sound(self) -> bool {
        forall|i: int, j: int|
            0 <= i < 3 && 0 <= j < self.hist@[i]@.len() ==> (
            #[trigger] self.hist@[i]@[j]).sound()
    }

    /// The quotes that make up the reference at `t`.
    pub open spec fn quotes_at(self, t: u64, max_age: u64) -> Seq<Quote> {
        contributions(self.hist@, 3, t, max_age)
    }

    /// The reference at `t`; `None` where no venue contributes.
    pub open spec fn point_at(self, t: u64, max_age: u64) -> Option<RefPoint> {
        composite_of(self.quotes_at(t, max_age))
    }

    /// A reference without quotes.
    pub fn new() -> (r: Ref)
        ensures
            r.sound(),
            forall|i: int| 0 <= i < 3 ==> (#[trigger] r.hist@[i])@ == Seq::<Quote>::empty(),
            forall|i: int| 0 <= i < 3 ==> (#[trigger] r.lag@[i])@ == Seq::<i128>::empty(),
    {
        Ref {
            hist: [VecDeque::new(), VecDeque::new(), VecDeque::new()],
            lag: [VecDeque::new(), VecDeque::new(), VecDeque::new()],
        }
    }

    /// Appends a quote to the history of its venue, and its lag to the venue's lags.
    pub fn set(&mut self, venue: &str, q: Quote)
        requires
            venue_index(venue@) is Some,
        ensures
            old(self).sound() && q.sound() ==> final(self).sound(),
            forall|i: int|
                0 <= i < 3 ==> (#[trigger] final(self).hist@[i])@ == (if venue_index(venue@)
                    == Some(i) {
                    pushed(old(self).hist@[i]@, q, BOOK as nat)
                } else {
                    old(self).hist@[i]@
                }),
            forall|i: int|
                0 <= i < 3 ==> (#[trigger] final(self).lag@[i])@ == (if venue_index(venue@)
                    == Some(i) {
                    pushed(old(self).lag@[i]@, q.lag(), LAGS as nat)
                } else {
                    old(self).lag@[i]@
                }),
    {
        if let Some(i) = index_of_venue(venue) {
            push_bounded(&mut self.hist[i], q, BOOK);
            push_bounded(&mut self.lag[i], q.lag_ms(), LAGS);
        }
    }

    /// The reference at `t_ms`, from each venue's latest quote of `t_ms` or earlier that is
    /// at most `max_age_ms` old.
    pub fn at(&self, t_ms: u64, max_age_ms: u64) -> (r: Option<RefPoint>)
        requires
            self.sound(),
        ensures
            r == self.point_at(t_ms, max_age_ms),
    {
        let mut qs: Vec<Quote> = Vec::new();
        for i in 0..3usize
            invariant
                self.sound(),
                qs@ == contributions(self.hist@, i as int, t_ms, max_age_ms),
                forall|j: int| 0 <= j < qs@.len() ==> !(#[trigger] qs@[j]).mid.nan(),
        {
            if let Some(q) = find_at(&self.hist[i], t_ms) {
                proof {
                    lemma_latest_at(self.hist@[i as int]@, t_ms);
                }
                if t_ms - q.exch_ms <= max_age_ms && q.is_tradable() {
                    qs.push(q);
                }
            }
        }
        composite(&qs)
    }
}

impl Default for Ref {
    fn default() -> (r: Ref)
        ensures
            r.sound(),
            forall|i: int| 0 <= i < 3 ==> (#[trigger] r.hist@[i])@ == Seq::<Quote>::empty(),
            forall|i: int| 0 <= i < 3 ==> (#[trigger] r.lag@[i])@ == Seq::<i128>::empty(),
    {
        Ref::new()
    }
}

/// The latest quote at `t` is one of the history, stamped `t` or earlier, and every quote
/// behind it is stamped later than `t`.
pub proof fn lemma_latest_at(h: Seq<Quote>, t: u64)
    ensures
        match latest_at(h, t) {
            Some(q) => q.exch_ms <= t && exists|i: int|
                0 <= i < h.len() && #[trigger] h[i] == q && forall|j: int|
                    i < j < h.len() ==> (#[trigger] h[j]).exch_ms > t,
            None => forall|j: int| 0 <= j < h.len() ==> (#[trigger] h[j]).exch_ms > t,
        },
    decreases h.len(),
{
    if h.len() > 0 && h.last().exch_ms > t {
        lemma_latest_at(h.drop_last(), t);
        if let Some(q) = latest_at(h.drop_last(), t) {
            let d = h.drop_last();
            let i = choose|i: int|
                0 <= i < d.len() && #[trigger] d[i] == q && forall|j: int|
                    i < j < d.len() ==> (#[trigger] d[j]).exch_ms > t;
            assert(h[i] == q);
            assert forall|j: int| i < j < h.len() implies (#[trigger] h[j]).exch_ms > t by {
                if j < d.len() {
                    assert(d[j] == h[j]);
                }
            }
        } else {
            assert forall|j: int| 0 <= j < h.len() implies (#[trigger] h[j]).exch_ms > t by {
                if j < h.len() - 1 {
                    assert(h.drop_last()[j] == h[j]);
                }
            }
        }
    } else if h.len() > 0 {
        assert(h[h.len() - 1] == h.last());
    }
}

// ---- the chain's own book ----

/// The chain's own best bid and ask over time, on the chain's clock, so that effective
/// spread is single-clock.
pub struct HlBook {
    pub hist: VecDeque<Quote>,
}

/// The mid of a quote, where there is one.
pub open spec fn mid_of(q: Option<Quote>) -> Option<Double> {
    match q {
        Some(x) => Some(x.mid),
        None => None,
    }
}

impl HlBook {
    /// A book without quotes.
    pub fn new() -> (r: HlBook)
        ensures
            r.hist@ == Seq::<Quote>::empty(),
    {
        HlBook { hist: VecDeque::new() }
    }

    /// Appends a quote.
    pub fn set(&mut self, q: Quote)
        ensures
            final(self).hist@ == pushed(old(self).hist@, q, BOOK as nat),
    {
        push_bounded(&mut self.hist, q, BOOK);
    }

    /// The mid as of `t_ms`: that of the last quote of `t_ms` or earlier.
    pub fn mid_at(&self, t_ms: u64) -> (r: Option<Double>)
        ensures
            r == mid_of(latest_at(self.hist@, t_ms)),
    {
        match find_at(&self.hist, t_ms) {
            Some(q) => Some(q.mid()),
            None => None,
        }
    }

    /// The mid that the taker saw before a fill stamped `t_ms`. The quote stamped with the
    /// fill's own millisecond is the post-trade state of the block that holds the fill: a
    /// sweep that exhausts a level and rests its remainder moves the touch in the same
    /// millisecond, so `mid_at` puts fills on the wrong side of the mid.
    pub fn mid_before(&self, t_ms: u64) -> (r: Option<Double>)
        ensures
            r == mid_of(latest_before(self.hist@, t_ms)),
    {
        match find_before(&self.hist, t_ms) {
            Some(q) => Some(q.mid()),
            None => None,
        }
    }
}

impl Default for HlBook {
    fn default() -> (r: HlBook)
        ensures
            r.hist@ == Seq::<Quote>::empty(),
    {
        HlBook::new()
    }
}

// ---- trades and events ----

/// A fill on the chain.
#[derive(Debug)]
pub struct Trade {
    pub px: Double,
    pub sz: Double,
    /// taker side
    pub buy: bool,
    pub exch_ms: u64,
    pub recv_wall_ms: u64,
    pub buyer: String,
    pub seller: String,
    /// a zero hash marks a fill not attributable to a normal order transaction
    pub zero_hash: bool,
}

impl Trade {
    /// The address that took: the buyer where the taker bought.
    pub open spec fn taker_view(self) -> Seq<char> {
        if self.buy {
            self.buyer@
        } else {
            self.seller@
        }
    }

    /// The address that made: the other one.
    pub open spec fn maker_view(self) -> Seq<char> {
        if self.buy {
            self.seller@
        } else {
            self.buyer@
        }
    }

    /// The address that took.
    pub fn taker(&self) -> (r: &str)
        ensures
            r@ == self.taker_view(),
    {
        if self.buy {
            self.buyer.as_str()
        } else {
            self.seller.as_str()
        }
    }

    /// The address that made.
    pub fn maker(&self) -> (r: &str)
        ensures
            r@ == self.maker_view(),
    {
        if self.buy {
            self.seller.as_str()
        } else {
            self.buyer.as_str()
        }
    }
}

/// What a feed delivers.
#[derive(Debug)]
pub enum Ev {
    Cex { venue: &'static str, q: Quote },
    HlBbo(Quote),
    HlTrade(Trade),
}

/// Where a message comes from.
#[derive(Clone, Copy, Debug, PartialEq, Eq, Structural)]
pub enum Source {
    Binance,
    Bybit,
    Okx,
    Hl,
}

/// Whether a quote of the given source counts as one: not where Bybit gives neither price,
/// nor where OKX lacks either.
pub open spec fn admitted(source: Source, q: Quote) -> bool {
    let zero = Double { bits: ZERO };
    match source {
        Source::Bybit => !(q.bid.equals(zero) && q.ask.equals(zero)),
        Source::Okx => !(q.bid.equals(zero) || q.ask.equals(zero)),
        _ => true,
    }
}

/// The event that a quote of the given source makes; `None` where it is not admitted.
pub fn quote_event(source: Source, q: Quote) -> (r: Option<Ev>)
    ensures
        r is Some <==> admitted(source, q),
        r matches Some(ev) ==> match ev {
            Ev::Cex { venue, q: x } => x == q && match source {
                Source::Binance => venue@ == "binance"@,
                Source::Bybit => venue@ == "bybit"@,
                Source::Okx => venue@ == "okx"@,
                Source::Hl => false,
            },
            Ev::HlBbo(x) => x == q && source == Source::Hl,
            Ev::HlTrade(_) => false,
        },
{
    let zero = Double { bits: ZERO };
    match source {
        Source::Binance => Some(Ev::Cex { venue: "binance", q }),
        Source::Bybit => if q.bid.eq(zero) && q.ask.eq(zero) {
            None
        } else {
            Some(Ev::Cex { venue: "bybit", q })
        },
        Source::Okx => if q.bid.eq(zero) || q.ask.eq(zero) {
            None
        } else {
            Some(Ev::Cex { venue: "okx", q })
        },
        Source::Hl => Some(Ev::HlBbo(q)),
    }
}

// ---- quantiles and arguments ----

/// The keys by which doubles are ordered.
pub open spec fn keys_of(v: Seq<Double>) -> Seq<int> {
    v.map_values(|x: Double| x.key())
}

/// The doubles in ascending order, equal ones in the order they stood in.
pub open spec fn sorted(v: Seq<Double>) -> Seq<Double> {
    order_of(keys_of(v)).map_values(|i: usize| v[i as int])
}

/// The order keys of doubles.
pub(crate) fn order_keys(v: &Vec<Double>) -> (r: Vec<i128>)
    ensures
        ints(r@) == keys_of(v@),
        r@.len() == v@.len(),
{
    let mut keys: Vec<i128> = Vec::new();
    for i in 0..v.len()
        invariant
            keys@.len() == i,
            forall|j: int| 0 <= j < i ==> #[trigger] keys@[j] == v@[j].key(),
    {
        keys.push(v[i].order_key());
    }
    assert(ints(keys@) =~= keys_of(v@));
    keys
}

/// Nearest-rank quantile; sorts in place. A NaN where there are no values.
pub fn pct(v: &mut Vec<Double>, percent: u64) -> (r: Double)
    requires
        percent <= 100,
        old(v)@.len() <= 1 || forall|i: int|
            0 <= i < old(v)@.len() ==> !(#[trigger] old(v)@[i]).nan(),
    ensures
        final(v)@ == sorted(old(v)@),
        old(v)@.len() == 0 ==> r == (Double { bits: NAN }),
        old(v)@.len() > 0 ==> r == sorted(old(v)@)[nearest_rank(old(v)@.len(), percent as nat)],
{
    let keys = order_keys(v);
    let p = stable_order(&keys);
    let mut out: Vec<Double> = Vec::new();
    for i in 0..p.len()
        invariant
            is_order(keys_of(v@), p@),
            out@.len() == i,
            forall|j: int| 0 <= j < i ==> #[trigger] out@[j] == v@[p@[j] as int],
    {
        out.push(v[p[i]]);
    }
    assert(out@ =~= sorted(v@));
    let n = out.len();
    *v = out;
    if n == 0 {
        Double { bits: NAN }
    } else {
        v[rank(n, percent)]
    }
}

/// The quantiles `10`, `25`, `50`, `75` and `90` of the doubles; NaNs where there are none.
pub open spec fn five_of(v: Seq<Double>) -> Seq<Double> {
    seq![10nat, 25nat, 50nat, 75nat, 90nat].map_values(
        |p: nat|
            if v.len() == 0 {
                Double { bits: NAN }
            } else {
                sorted(v)[nearest_rank(v.len(), p)]
            },
    )
}

/// The quantiles that a report gives of a sample.
pub fn five(v: &Vec<Double>) -> (r: [Double; 5])
    requires
        v@.len() <= 1 || forall|i: int| 0 <= i < v@.len() ==> !(#[trigger] v@[i]).nan(),
    ensures
        r@ == five_of(v@),
{
    let mut c: Vec<Double> = Vec::new();
    for i in 0..v.len()
        invariant
            c@ == v@.take(i as int),
    {
        c.push(v[i]);
        assert(c@ =~= v@.take(i + 1));
    }
    assert(c@ =~= v@);
    let p10 = pct(&mut c, 10);
    let n = v.len();
    if n == 0 {
        let r = [p10, p10, p10, p10, p10];
        assert(r@ =~= five_of(v@));
        return r;
    }
    proof {
        crate::order::lemma_order_exists(keys_of(v@));
    }
    let r = [p10, c[rank(n, 25)], c[rank(n, 50)], c[rank(n, 75)], c[rank(n, 90)]];
    assert(r@ =~= five_of(v@));
    r
}

/// A counter after one more was counted, up to the largest number.
pub open spec fn one_more(n: u64) -> u64 {
    if n == u64::MAX {
        n
    } else {
        (n + 1) as u64
    }
}

/// The argument that follows the first `name` among `args`, or `default` where there is none.
pub open spec fn arg_value(args: Seq<String>, name: Seq<char>, default: Seq<char>) -> Seq<char>
    decreases args.len(),
{
    if args.len() == 0 {
        default
    } else if args[0]@ == name {
        if args.len() > 1 {
            args[1]@
        } else {
            default
        }
    } else {
        arg_value(args.skip(1), name, default)
    }
}

/// Looks up a command-line option.
pub fn arg(args: &Vec<String>, name: &str, default: &str) -> (r: String)
    ensures
        r@ == arg_value(args@, name@, default@),
{
    let mut i: usize = 0;
    assert(args@.skip(0) =~= args@);
    while i < args.len()
        invariant
            i <= args@.len(),
            arg_value(args@, name@, default@) == arg_value(args@.skip(i as int), name@, default@),
        decreases args.len() - i,
    {
        if same(args[i].as_str(), name) {
            if args.len() - i > 1 {
                return args[i + 1].clone();
            }
            return default.to_owned();
        }
        assert(args@.skip(i as int).skip(1) =~= args@.skip(i + 1));
        i += 1;
    }
    default.to_owned()
}

// ---- laws ----

/// Stamps that do not go back.
pub open spec fn in_time_order(h: Seq<Quote>) -> bool {
    forall|i: int, j: int|
        0 <= i <= j < h.len() ==> (#[trigger] h[i]).exch_ms <= (#[trigger] h[j]).exch_ms
}

/// On a clock that does not go back, the latest quote at `t` is the newest of all that are
/// stamped `t` or earlier.
pub proof fn law_latest_is_newest(h: Seq<Quote>, t: u64, i: int)
    requires
        in_time_order(h),
        0 <= i < h.len(),
        h[i].exch_ms <= t,
    ensures
        latest_at(h, t) is Some,
        h[i].exch_ms <= latest_at(h, t)->0.exch_ms <= t,
{
    lemma_latest_at(h, t);
    let q = latest_at(h, t)->0;
    let k = choose|k: int|
        0 <= k < h.len() && #[trigger] h[k] == q && forall|j: int|
            k < j < h.len() ==> (#[trigger] h[j]).exch_ms > t;
    assert(i <= k);
}

/// What is quoted after `t` does not change what was quoted at `t`: the reference at a fill
/// looks at nothing later.
pub proof fn law_later_quotes_do_not_count(h: Seq<Quote>, q: Quote, t: u64)
    requires
        q.exch_ms > t,
    ensures
        latest_at(h.push(q), t) == latest_at(h, t),
{
    assert(h.push(q).drop_last() =~= h);
}

/// The mid before a fill is strictly before it: a quote stamped with the fill's own
/// millisecond, or later, does not change it.
pub proof fn law_post_trade_quotes_do_not_count(h: Seq<Quote>, q: Quote, t: u64)
    requires
        q.exch_ms >= t,
    ensures
        latest_before(h.push(q), t) == latest_before(h, t),
{
    assert(h.push(q).drop_last() =~= h);
}

/// Before a millisecond is at the one before it.
pub proof fn law_before_is_at_one_less(h: Seq<Quote>, t: u64)
    ensures
        t > 0 ==> latest_before(h, t) == latest_at(h, (t - 1) as u64),
        t == 0 ==> latest_before(h, t) is None,
    decreases h.len(),
{
    if h.len() > 0 {
        law_before_is_at_one_less(h.drop_last(), t);
    }
}

/// A history keeps its bound, holds the newest item, and has lost the oldest at most.
pub proof fn law_histories_are_bounded<T>(s: Seq<T>, x: T, cap: nat)
    requires
        s.len() <= cap,
        cap > 0,
    ensures
        pushed(s, x, cap).len() <= cap,
        pushed(s, x, cap).last() == x,
        pushed(s, x, cap) == s.push(x) || pushed(s, x, cap) == s.push(x).skip(1),
{
}

proof fn lemma_contributions(h: Seq<VecDeque<Quote>>, n: int, t: u64, max_age: u64)
    requires
        0 <= n <= h.len(),
    ensures
        contributions(h, n, t, max_age).len() <= n,
        forall|i: int|
            0 <= i < contributions(h, n, t, max_age).len() ==> {
                let q = #[trigger] contributions(h, n, t, max_age)[i];
                q.exch_ms <= t && t - q.exch_ms <= max_age && q.tradable() && exists|v: int|
                    0 <= v < n && (#[trigger] h[v])@.contains(q)
            },
    decreases n,
{
    if n > 0 {
        lemma_contributions(h, n - 1, t, max_age);
        lemma_latest_at(h[n - 1]@, t);
        let rest = contributions(h, n - 1, t, max_age);
        let all = contributions(h, n, t, max_age);
        assert forall|i: int| 0 <= i < all.len() implies {
            let q = #[trigger] all[i];
            q.exch_ms <= t && t - q.exch_ms <= max_age && q.tradable() && exists|v: int|
                0 <= v < n && (#[trigger] h[v])@.contains(q)
        } by {
            if i < rest.len() {
                assert(all[i] == rest[i]);
                let v = choose|v: int| 0 <= v < n - 1 && (#[trigger] h[v])@.contains(rest[i]);
                assert(h[v]@.contains(all[i]));
            } else {
                assert(h[n - 1]@.contains(all[i]));
            }
        }
    }
}

/// The reference at `t` is made of at most one quote of each venue: quotes that the venues
/// gave at `t` or earlier, recent enough and tradable.
pub proof fn law_the_reference_is_causal(r: Ref, t: u64, max_age: u64, i: int)
    requires
        0 <= i < r.quotes_at(t, max_age).len(),
    ensures
        r.quotes_at(t, max_age).len() <= 3,
        r.quotes_at(t, max_age)[i].exch_ms <= t,
        t - r.quotes_at(t, max_age)[i].exch_ms <= max_age,
        r.quotes_at(t, max_age)[i].tradable(),
        exists|v: int|
            0 <= v < 3 && (#[trigger] r.hist@[v])@.contains(r.quotes_at(t, max_age)[i]),
{
    lemma_contributions(r.hist@, 3, t, max_age);
    let q = contributions(r.hist@, 3, t, max_age)[i];
}

/// The composite mid is the median: in ascending order of mid, no quote up to the place of
/// `low` is above it and none from there on below, and so for `high`; as many quotes stand
/// before `low` as behind `high`; and the two are the same where the number of quotes is odd.
pub proof fn law_the_composite_is_the_median(qs: Seq<Quote>, j: int)
    requires
        0 < qs.len() <= usize::MAX,
        0 <= j < qs.len(),
    ensures
        is_order(mid_keys(qs), order_of(mid_keys(qs))),
        composite_of(qs) is Some,
        ({
            let mid = ranked_mid(qs, j);
            let low = composite_of(qs)->0.low;
            let high = composite_of(qs)->0.high;
            &&& j <= (qs.len() - 1) / 2 ==> !low.below(mid)
            &&& j >= (qs.len() - 1) / 2 ==> !mid.below(low)
            &&& j <= qs.len() / 2 ==> !high.below(mid)
            &&& j >= qs.len() / 2 ==> !mid.below(high)
            &&& (qs.len() - 1) / 2 == qs.len() - 1 - qs.len() / 2
            &&& qs.len() % 2 == 1 ==> low == high
            &&& qs.len() % 2 == 0 ==> (qs.len() - 1) / 2 + 1 == qs.len() / 2
        }),
{
    let keys = mid_keys(qs);
    lemma_order_exists(keys);
    let p = order_of(keys);
    let l = (qs.len() - 1) / 2;
    let h = qs.len() as int / 2;
    if j < l {
        assert(precedes(keys, p[j] as int, p[l] as int));
    } else if j > l {
        assert(precedes(keys, p[l] as int, p[j] as int));
    }
    if j < h {
        assert(precedes(keys, p[j] as int, p[h] as int));
    } else if j > h {
        assert(precedes(keys, p[h] as int, p[j] as int));
    }
}

/// The composite spread is that of a single venue, and no venue has a tighter one.
pub proof fn law_the_tightest_spread_is_a_venues_own(qs: Seq<Quote>)
    requires
        qs.len() > 0,
        forall|i: int|
            0 <= i < qs.len() ==> !(#[trigger] qs[i]).half_bps.nan() && !(Double {
                bits: MAX,
            }).below(qs[i].half_bps),
    ensures
        exists|i: int| 0 <= i < qs.len() && (#[trigger] qs[i]).half_bps == tightest(qs),
        forall|i: int|
            0 <= i < qs.len() ==> !(#[trigger] qs[i]).half_bps.below(tightest(qs)),
    decreases qs.len(),
{
    let rest = qs.drop_last();
    let last = qs.last().half_bps;
    assert(qs[qs.len() - 1] == qs.last());
    if rest.len() == 0 {
        assert(tightest(rest) == (Double { bits: MAX }));
        assert(tightest(qs) == last);
    } else {
        assert forall|i: int| 0 <= i < rest.len() implies !(#[trigger] rest[i]).half_bps.nan()
            && !(Double { bits: MAX }).below(rest[i].half_bps) by {
            assert(rest[i] == qs[i]);
        }
        law_the_tightest_spread_is_a_venues_own(rest);
        let k = choose|k: int|
            0 <= k < rest.len() && (#[trigger] rest[k]).half_bps == tightest(rest);
        assert(qs[k] == rest[k]);
        assert forall|i: int| 0 <= i < qs.len() implies !(#[trigger] qs[i]).half_bps.below(
            tightest(qs),
        ) by {
            if i < rest.len() {
                assert(qs[i] == rest[i]);
            }
        }
    }
}

/// Quantiles of doubles ascend with their percentage, and each is one of the doubles.
pub proof fn law_quantiles_of_doubles_ascend(v: Seq<Double>, a: nat, b: nat)
    requires
        0 < v.len() <= usize::MAX,
        a <= b <= 100,
    ensures
        !sorted(v)[nearest_rank(v.len(), b)].below(sorted(v)[nearest_rank(v.len(), a)]),
        v.contains(sorted(v)[nearest_rank(v.len(), a)]),
{
    let keys = keys_of(v);
    let p = order_of(keys);
    lemma_order_exists(keys);
    lemma_nearest_rank(v.len(), a);
    lemma_nearest_rank(v.len(), b);
    let i = nearest_rank(v.len(), a);
    let j = nearest_rank(v.len(), b);
    assert(2 * (v.len() - 1) * a <= 2 * (v.len() - 1) * b) by (nonlinear_arith)
        requires
            v.len() > 0,
            a <= b,
    ;
    assert(i <= j);
    assert(v[p[i] as int] == sorted(v)[i]);
    if i < j {
        assert(precedes(keys, p[i] as int, p[j] as int));
    }
}

/// Whether the doubles `w` stand for the numbers `v`: none is a NaN, and a larger number has
/// no smaller double, though it may share one.
pub open spec fn stand_for(w: Seq<Double>, v: Seq<u64>) -> bool {
    &&& w.len() == v.len()
    &&& forall|i: int| 0 <= i < w.len() ==> !(#[trigger] w[i]).nan()
    &&& forall|i: int, j: int|
        0 <= i < v.len() && 0 <= j < v.len() && #[trigger] v[i] <= #[trigger] v[j] ==> w[i].key()
            <= w[j].key()
}

/// `percentile` and `pct` leave their arguments in the same order: at every place stands a
/// number there, and its double here.
pub proof fn law_percentile_and_pct_sort_alike(v: Seq<u64>, w: Seq<Double>, k: int)
    requires
        v.len() <= usize::MAX,
        stand_for(w, v),
        0 <= k < v.len(),
    ensures
        ascending(v).len() == v.len(),
        sorted(w).len() == v.len(),
        exists|i: int|
            0 <= i < v.len() && #[trigger] v[i] == ascending(v)[k] && sorted(w)[k].equals(w[i]),
{
    let a = v.map_values(|x: u64| x as int);
    let b = keys_of(w);
    let p = order_of(a);
    let q = order_of(b);
    lemma_order_exists(a);
    lemma_order_exists(b);
    assert(rises(b, p)) by {
        assert forall|i: int, j: int| 0 <= i <= j < p.len() implies b[#[trigger] p[i] as int]
            <= b[#[trigger] p[j] as int] by {
            if i < j {
                assert(precedes(a, p[i] as int, p[j] as int));
            }
            assert(v[p[i] as int] <= v[p[j] as int]);
        }
    }
    assert(rises(b, q)) by {
        assert forall|i: int, j: int| 0 <= i <= j < q.len() implies b[#[trigger] q[i] as int]
            <= b[#[trigger] q[j] as int] by {
            if i < j {
                assert(precedes(b, q[i] as int, q[j] as int));
            }
        }
    }
    lemma_same_ranks(b, a, p, b, q, k);
    assert(v[p[k] as int] == ascending(v)[k]);
    assert(sorted(w)[k] == w[q[k] as int]);
}

/// `percentile` of numbers and `pct` of the doubles that stand for them agree: where the one
/// is a number, the other equals its double.
pub proof fn law_percentile_and_pct_agree(v: Seq<u64>, w: Seq<Double>, percent: nat)
    requires
        0 < v.len() <= usize::MAX,
        stand_for(w, v),
        percent <= 100,
    ensures
        exists|i: int|
            0 <= i < v.len() && #[trigger] v[i] == quantile(v, percent) && sorted(
                w,
            )[nearest_rank(w.len(), percent)].equals(w[i]),
{
    lemma_nearest_rank(v.len(), percent);
    law_percentile_and_pct_sort_alike(v, w, nearest_rank(v.len(), percent));
}

/// A quote is tradable exactly where its bid is a positive number and its ask a larger one.
pub proof fn law_tradable_quotes_have_a_spread(q: Quote)
    ensures
        q.tradable() <==> is_number(q.bid) && is_number(q.ask) && 0 < units(q.bid) < units(q.ask),
{
    law_constants_are_their_numbers(q.bid);
    law_doubles_compare_as_numbers(Double { bits: ZERO }, q.bid);
    law_doubles_compare_as_numbers(q.bid, q.ask);
}

/// A lag is the time of arrival less the venue's stamp, whichever is the larger.
pub proof fn law_lags_are_arrival_less_stamp(q: Quote, r: i128)
    requires
        call_ensures(Quote::lag_ms, (&q,), r),
    ensures
        r == q.recv_wall_ms - q.exch_ms,
        q.lag() == q.recv_wall_ms - q.exch_ms,
{
}

/// What a history of at most `cap` items holds once all of `s` was appended to it, one after
/// another: the last `cap` of them, in order.
pub proof fn law_histories_hold_the_newest<T>(s: Seq<T>, cap: nat)
    requires
        cap > 0,
    ensures
        s.fold_left(Seq::empty(), |h: Seq<T>, x: T| pushed(h, x, cap)) == if s.len() > cap {
            s.skip(s.len() - cap)
        } else {
            s
        },
    decreases s.len(),
{
    let f = |h: Seq<T>, x: T| pushed(h, x, cap);
    let all = s.fold_left(Seq::empty(), f);
    if s.len() > 0 {
        law_histories_hold_the_newest(s.drop_last(), cap);
        let before = s.drop_last().fold_left(Seq::empty(), f);
        assert(all == pushed(before, s.last(), cap));
        if s.len() > cap {
            assert(all =~= s.skip(s.len() - cap));
        } else {
            assert(all =~= s);
        }
    } else {
        assert(all =~= s);
    }
}

/// A book that has its four hundred quotes loses the oldest to a new one; one that has fewer
/// loses none.
pub proof fn law_books_keep_four_hundred_quotes(b: &mut HlBook, q: Quote)
    requires
        call_ensures(HlBook::set, (b, q), ()),
    ensures
        old(b).hist@.len() < 400 ==> final(b).hist@ == old(b).hist@.push(q),
        old(b).hist@.len() == 400 ==> final(b).hist@ == old(b).hist@.skip(1).push(q),
{
    if old(b).hist@.len() == 400 {
        assert(old(b).hist@.push(q).skip(1) =~= old(b).hist@.skip(1).push(q));
    }
}

/// A quote of a venue goes to the history of that venue, its lag to the venue's lags, and
/// nowhere else. Of quotes the newest four hundred are kept, of lags the newest two thousand.
pub proof fn law_quotes_go_to_their_venue(r: &mut Ref, venue: &str, q: Quote, v: int)
    requires
        call_ensures(Ref::set, (r, venue, q), ()),
        0 <= v < 3,
    ensures
        ({
            let own = venue@ == if v == 0 {
                "binance"@
            } else if v == 1 {
                "bybit"@
            } else {
                "okx"@
            };
            let lag = (q.recv_wall_ms - q.exch_ms) as i128;
            &&& !own ==> final(r).hist@[v]@ == old(r).hist@[v]@ && final(r).lag@[v]@ == old(
                r,
            ).lag@[v]@
            &&& own && old(r).hist@[v]@.len() < 400 ==> final(r).hist@[v]@ == old(
                r,
            ).hist@[v]@.push(q)
            &&& own && old(r).hist@[v]@.len() == 400 ==> final(r).hist@[v]@ == old(
                r,
            ).hist@[v]@.skip(1).push(q)
            &&& own && old(r).lag@[v]@.len() < 2000 ==> final(r).lag@[v]@ == old(r).lag@[v]@.push(
                lag,
            )
            &&& own && old(r).lag@[v]@.len() == 2000 ==> final(r).lag@[v]@ == old(
                r,
            ).lag@[v]@.skip(1).push(lag)
        }),
{
    lemma_venue_names();
    let h = final(r).hist@[v];
    let l = final(r).lag@[v];
    let lag = (q.recv_wall_ms - q.exch_ms) as i128;
    assert(old(r).hist@[v]@.len() == 400 ==> old(r).hist@[v]@.push(q).skip(1) =~= old(
        r,
    ).hist@[v]@.skip(1).push(q));
    assert(old(r).lag@[v]@.len() == 2000 ==> old(r).lag@[v]@.push(lag).skip(1) =~= old(
        r,
    ).lag@[v]@.skip(1).push(lag));
}

proof fn lemma_venue_names()
    ensures
        "binance"@ != "bybit"@ && "binance"@ != "okx"@ && "bybit"@ != "okx"@,
{
    reveal_strlit("binance");
    reveal_strlit("bybit");
    reveal_strlit("okx");
    assert("binance"@[1] != "bybit"@[1]);
    assert("binance"@[0] != "okx"@[0]);
    assert("bybit"@[0] != "okx"@[0]);
}

/// The venues are Binance, Bybit and OKX, in that order, and no others.
pub proof fn law_there_are_three_venues(i: usize, r: &'static str, name: Seq<char>)
    requires
        i < 3,
        call_ensures(venue, (i,), r),
    ensures
        r@ == if i == 0 {
            "binance"@
        } else if i == 1 {
            "bybit"@
        } else {
            "okx"@
        },
        venue_index(name) is Some <==> name == "binance"@ || name == "bybit"@ || name == "okx"@,
        venue_index(name) == Some(i as int) <==> name == r@,
{
    lemma_venue_names();
}

/// Whether the quote at place `i` of a history is the one that counts at `t`: it is the last
/// that is stamped `t` or earlier, it is at most `max_age` old, its bid is a positive number
/// and its ask a larger one.
pub open spec fn is_current(h: Seq<Quote>, i: int, t: u64, max_age: u64) -> bool {
    &&& 0 <= i < h.len()
    &&& h[i].exch_ms <= t
    &&& forall|j: int| i < j < h.len() ==> (#[trigger] h[j]).exch_ms > t
    &&& t - h[i].exch_ms <= max_age
    &&& is_number(h[i].bid)
    &&& is_number(h[i].ask)
    &&& 0 < units(h[i].bid) < units(h[i].ask)
}

/// Whether a venue has a quote that counts at `t`.
pub open spec fn has_current(h: Seq<Quote>, t: u64, max_age: u64) -> bool {
    exists|i: int| is_current(h, i, t, max_age)
}

/// How many of the first `n` venues have a quote that counts at `t`.
pub open spec fn current_among(h: Seq<VecDeque<Quote>>, n: int, t: u64, max_age: u64) -> nat {
    vstd::set_lib::set_int_range(0, n).filter(|v: int| has_current(h[v]@, t, max_age)).len()
}

proof fn lemma_contribution_is_current(h: Seq<Quote>, t: u64, max_age: u64)
    ensures
        contribution(h, t, max_age) is Some <==> has_current(h, t, max_age),
        forall|i: int| #[trigger]
            is_current(h, i, t, max_age) ==> contribution(h, t, max_age) == Some(h[i]),
{
    lemma_latest_at(h, t);
    if let Some(q) = latest_at(h, t) {
        law_tradable_quotes_have_a_spread(q);
        let k = choose|k: int|
            0 <= k < h.len() && #[trigger] h[k] == q && forall|j: int|
                k < j < h.len() ==> (#[trigger] h[j]).exch_ms > t;
        if contribution(h, t, max_age) is Some {
            assert(is_current(h, k, t, max_age));
        }
        assert forall|i: int| #[trigger] is_current(h, i, t, max_age) implies contribution(
            h,
            t,
            max_age,
        ) == Some(h[i]) by {
            if i < k {
                assert(h[k].exch_ms > t);
            } else if k < i {
                assert(h[i].exch_ms > t);
            }
        }
    }
}

proof fn lemma_current_among(h: Seq<VecDeque<Quote>>, n: int, t: u64, max_age: u64)
    requires
        0 <= n,
    ensures
        contributions(h, n, t, max_age).len() == current_among(h, n, t, max_age),
        n > 0 ==> current_among(h, n, t, max_age) == current_among(h, n - 1, t, max_age)
            + if has_current(h[n - 1]@, t, max_age) {
            1nat
        } else {
            0
        },
    decreases n,
{
    let f = |v: int| has_current(h[v]@, t, max_age);
    let all = vstd::set_lib::set_int_range(0, n).filter(f);
    vstd::set_lib::lemma_int_range(0, n);
    if n > 0 {
        lemma_current_among(h, n - 1, t, max_age);
        vstd::set_lib::lemma_int_range(0, n - 1);
        let few = vstd::set_lib::set_int_range(0, n - 1).filter(f);
        lemma_contribution_is_current(h[n - 1]@, t, max_age);
        if f(n - 1) {
            assert(all =~= few.insert(n - 1));
        } else {
            assert(all =~= few);
        }
    } else {
        assert(all =~= Set::empty());
    }
}

proof fn lemma_place_of_venue(
    h: Seq<VecDeque<Quote>>,
    n: int,
    t: u64,
    max_age: u64,
    v: int,
    i: int,
)
    requires
        0 <= v < n,
        is_current(h[v]@, i, t, max_age),
    ensures
        current_among(h, v, t, max_age) < contributions(h, n, t, max_age).len(),
        contributions(h, n, t, max_age)[current_among(h, v, t, max_age) as int] == h[v]@[i],
    decreases n,
{
    lemma_current_among(h, n - 1, t, max_age);
    lemma_contribution_is_current(h[n - 1]@, t, max_age);
    if v < n - 1 {
        lemma_place_of_venue(h, n - 1, t, max_age, v, i);
    }
}

/// The reference at `t` leaves no venue out: each that has a quote that counts contributes it,
/// in the order of the venues, whatever the others quote; and nothing else is in it.
pub proof fn law_the_reference_is_complete(r: Ref, t: u64, max_age: u64, v: int, i: int)
    requires
        0 <= v < 3,
    ensures
        r.quotes_at(t, max_age).len() == current_among(r.hist@, 3, t, max_age),
        is_current(r.hist@[v]@, i, t, max_age) ==> r.quotes_at(t, max_age).contains(
            r.hist@[v]@[i],
        ) && current_among(r.hist@, v, t, max_age) < r.quotes_at(t, max_age).len()
            && r.quotes_at(t, max_age)[current_among(r.hist@, v, t, max_age) as int]
            == r.hist@[v]@[i],
{
    lemma_current_among(r.hist@, 3, t, max_age);
    if is_current(r.hist@[v]@, i, t, max_age) {
        lemma_place_of_venue(r.hist@, 3, t, max_age, v, i);
    }
}

/// Sorted doubles ascend as the numbers that they stand for, and of every kind there are as many
/// as before.
pub proof fn law_sorted_sorts(v: Seq<Double>, pred: spec_fn(Double) -> bool)
    requires
        v.len() <= usize::MAX,
    ensures
        sorted(v).len() == v.len(),
        forall|i: int, j: int|
            0 <= i <= j < v.len() ==> units(#[trigger] sorted(v)[i]) <= units(
                #[trigger] sorted(v)[j],
            ),
        sorted(v).filter(pred).len() == v.filter(pred).len(),
{
    let keys = keys_of(v);
    let p = order_of(keys);
    lemma_order_exists(keys);
    assert forall|i: int, j: int| 0 <= i <= j < v.len() implies units(#[trigger] sorted(v)[i])
        <= units(#[trigger] sorted(v)[j]) by {
        law_doubles_compare_as_numbers(sorted(v)[j], sorted(v)[i]);
        if i < j {
            assert(precedes(keys, p[i] as int, p[j] as int));
        }
    }
    lemma_orders_keep_counts(keys, p, v, sorted(v), pred);
}

/// The composite of quotes: as many venues as there are quotes; of the mids in ascending order
/// the one in the middle, or the two; and a half-spread that is one of the quotes' own, with no
/// quote's below it.
pub proof fn law_the_composite_is_of_the_quotes(qs: Vec<Quote>, r: Option<RefPoint>, i: int)
    requires
        call_ensures(composite, (&qs,), r),
        forall|i: int|
            0 <= i < qs@.len() ==> is_number((#[trigger] qs@[i]).half_bps) && !(Double {
                bits: MAX,
            }).below(qs@[i].half_bps),
    ensures
        r is Some <==> qs@.len() > 0,
        r matches Some(p) ==> {
            let mids = sorted(qs@.map_values(|q: Quote| q.mid));
            &&& p.venues == qs@.len()
            &&& mids.len() == qs@.len()
            &&& qs@.len() % 2 == 1 ==> p.low == mids[qs@.len() as int / 2] && p.high
                == mids[qs@.len() as int / 2]
            &&& qs@.len() % 2 == 0 ==> p.low == mids[qs@.len() / 2 - 1] && p.high
                == mids[qs@.len() as int / 2]
            &&& exists|k: int|
                0 <= k < qs@.len() && (#[trigger] qs@[k]).half_bps == p.half_spread_bps
            &&& 0 <= i < qs@.len() ==> units(p.half_spread_bps) <= units(qs@[i].half_bps)
        },
{
    assert(qs@.len() == qs.len());
    if qs@.len() > 0 {
        let mids = qs@.map_values(|q: Quote| q.mid);
        assert(keys_of(mids) =~= mid_keys(qs@));
        lemma_order_exists(keys_of(mids));
        assert forall|i: int| 0 <= i < qs@.len() implies !(#[trigger] qs@[i]).half_bps.nan() by {
            law_doubles_compare_as_numbers(qs@[i].half_bps, qs@[i].half_bps);
        }
        law_the_tightest_spread_is_a_venues_own(qs@);
        if 0 <= i < qs@.len() {
            let k = choose|k: int|
                0 <= k < qs@.len() && (#[trigger] qs@[k]).half_bps == tightest(qs@);
            assert(!qs@[i].half_bps.below(tightest(qs@)));
            law_doubles_compare_as_numbers(qs@[i].half_bps, tightest(qs@));
        }
    }
}

/// The reference at a time is the composite of the quotes that count then.
pub proof fn law_the_reference_is_their_composite(
    r: Ref,
    t: u64,
    max_age: u64,
    p: Option<RefPoint>,
    qs: Vec<Quote>,
    c: Option<RefPoint>,
)
    requires
        call_ensures(Ref::at, (&r, t, max_age), p),
        call_ensures(composite, (&qs,), c),
        qs@ == r.quotes_at(t, max_age),
    ensures
        p == c,
        p is Some <==> current_among(r.hist@, 3, t, max_age) > 0,
{
    law_the_reference_is_complete(r, t, max_age, 0, 0);
}

/// The mid at a time is that of the last quote that is stamped then or earlier; the mid before a
/// time is that of the last quote that is stamped earlier; and there is none where no quote is.
pub proof fn law_mids_are_of_the_last_quote(
    b: HlBook,
    t: u64,
    at: Option<Double>,
    before: Option<Double>,
    i: int,
)
    requires
        call_ensures(HlBook::mid_at, (&b, t), at),
        call_ensures(HlBook::mid_before, (&b, t), before),
    ensures
        at is Some <==> exists|k: int| 0 <= k < b.hist@.len() && (#[trigger] b.hist@[k]).exch_ms <= t,
        before is Some <==> exists|k: int|
            0 <= k < b.hist@.len() && (#[trigger] b.hist@[k]).exch_ms < t,
        0 <= i < b.hist@.len() && b.hist@[i].exch_ms <= t && (forall|j: int|
            i < j < b.hist@.len() ==> (#[trigger] b.hist@[j]).exch_ms > t) ==> at == Some(
            b.hist@[i].mid,
        ),
        0 <= i < b.hist@.len() && b.hist@[i].exch_ms < t && (forall|j: int|
            i < j < b.hist@.len() ==> (#[trigger] b.hist@[j]).exch_ms >= t) ==> before == Some(
            b.hist@[i].mid,
        ),
{
    let h = b.hist@;
    lemma_latest_at(h, t);
    law_before_is_at_one_less(h, t);
    if let Some(q) = latest_at(h, t) {
        let k = choose|k: int|
            0 <= k < h.len() && #[trigger] h[k] == q && forall|j: int|
                k < j < h.len() ==> (#[trigger] h[j]).exch_ms > t;
        assert(h[k].exch_ms <= t);
        if 0 <= i < h.len() && h[i].exch_ms <= t && (forall|j: int|
            i < j < h.len() ==> (#[trigger] h[j]).exch_ms > t) {
            if i < k {
                assert(h[k].exch_ms > t);
            } else if k < i {
                assert(h[i].exch_ms > t);
            }
        }
    }
    if t > 0 {
        let s = (t - 1) as u64;
        lemma_latest_at(h, s);
        if let Some(q) = latest_at(h, s) {
            let k = choose|k: int|
                0 <= k < h.len() && #[trigger] h[k] == q && forall|j: int|
                    k < j < h.len() ==> (#[trigger] h[j]).exch_ms > s;
            assert(h[k].exch_ms < t);
            if 0 <= i < h.len() && h[i].exch_ms < t && (forall|j: int|
                i < j < h.len() ==> (#[trigger] h[j]).exch_ms >= t) {
                if i < k {
                    assert(h[k].exch_ms >= t);
                } else if k < i {
                    assert(h[i].exch_ms > s);
                }
            }
        }
    }
}

/// The two addresses of a fill are its taker and its maker: the buyer takes where the taker
/// bought, and the seller where the taker sold.
pub proof fn law_takers_and_makers_are_the_two_sides(t: Trade, taker: &str, maker: &str)
    requires
        call_ensures(Trade::taker, (&t,), taker),
        call_ensures(Trade::maker, (&t,), maker),
    ensures
        t.buy ==> taker@ == t.buyer@ && maker@ == t.seller@,
        !t.buy ==> taker@ == t.seller@ && maker@ == t.buyer@,
        taker@ == t.taker_view() && maker@ == t.maker_view(),
{
}

/// A quote becomes an event of its own source, unchanged. Bybit's is left out only where both
/// prices are zero, that of OKX where either is; the others never are.
pub proof fn law_quotes_become_events(source: Source, q: Quote, r: Option<Ev>)
    requires
        call_ensures(quote_event, (source, q), r),
    ensures
        ({
            let no_bid = is_number(q.bid) && units(q.bid) == 0;
            let no_ask = is_number(q.ask) && units(q.ask) == 0;
            &&& r is None <==> (source == Source::Bybit && no_bid && no_ask) || (source
                == Source::Okx && (no_bid || no_ask))
            &&& r matches Some(ev) ==> match ev {
                Ev::Cex { venue, q: x } => x == q && venue@ == (match source {
                    Source::Binance => "binance"@,
                    Source::Bybit => "bybit"@,
                    _ => "okx"@,
                }) && source != Source::Hl,
                Ev::HlBbo(x) => x == q && source == Source::Hl,
                Ev::HlTrade(_) => false,
            }
        }),
{
    law_constants_are_their_numbers(q.bid);
    law_doubles_compare_as_numbers(q.bid, Double { bits: ZERO });
    law_doubles_compare_as_numbers(q.ask, Double { bits: ZERO });
}

/// `pct` sorts, and gives the double at the nearest place of the quantile; a NaN where there is
/// none.
pub proof fn law_pct_gives_the_nearest_rank(
    v: &mut Vec<Double>,
    percent: u64,
    r: Double,
    i: int,
    pred: spec_fn(Double) -> bool,
)
    requires
        call_ensures(pct, (v, percent), r),
        percent <= 100,
        old(v)@.len() <= usize::MAX,
    ensures
        old(v)@.len() == 0 ==> !is_number(r),
        final(v)@.len() == old(v)@.len(),
        forall|j: int, k: int|
            0 <= j <= k < final(v)@.len() ==> units(#[trigger] final(v)@[j]) <= units(
                #[trigger] final(v)@[k],
            ),
        final(v)@.filter(pred).len() == old(v)@.filter(pred).len(),
        0 <= i < final(v)@.len() && 200 * i - 100 <= 2 * (final(v)@.len() - 1) * percent < 200 * i
            + 100 ==> r == final(v)@[i],
{
    law_sorted_sorts(old(v)@, pred);
    law_constants_are_their_numbers(r);
    if old(v)@.len() > 0 {
        law_ranks_are_nearest(old(v)@.len(), percent as nat, i);
    }
}

/// A report of a sample gives its quantiles of ten, twenty-five, fifty, seventy-five and ninety
/// percent, in this order.
pub proof fn law_reports_give_five_quantiles(v: Vec<Double>, r: [Double; 5], k: int, i: int)
    requires
        call_ensures(five, (&v,), r),
        0 <= k < 5,
        v@.len() <= usize::MAX,
    ensures
        v@.len() == 0 ==> !is_number(r@[k]),
        ({
            let percent: int = if k == 0 {
                10
            } else if k == 1 {
                25
            } else if k == 2 {
                50
            } else if k == 3 {
                75
            } else {
                90
            };
            0 <= i < v@.len() && 200 * i - 100 <= 2 * (v@.len() - 1) * percent < 200 * i + 100
                ==> r@[k] == sorted(v@)[i]
        }),
{
    law_constants_are_their_numbers(r@[k]);
    if v@.len() > 0 {
        law_ranks_are_nearest(v@.len(), 10, i);
        law_ranks_are_nearest(v@.len(), 25, i);
        law_ranks_are_nearest(v@.len(), 50, i);
        law_ranks_are_nearest(v@.len(), 75, i);
        law_ranks_are_nearest(v@.len(), 90, i);
    }
    assert(r@[k] == five_of(v@)[k]);
}

/// The value of an option whose first mention is at place `i`, or nowhere.
pub proof fn lemma_arg_value(args: Seq<String>, name: Seq<char>, default: Seq<char>, i: int)
    requires
        0 <= i <= args.len(),
        forall|j: int| 0 <= j < i ==> (#[trigger] args[j])@ != name,
        i == args.len() || args[i]@ == name,
    ensures
        arg_value(args, name, default) == if i + 1 < args.len() {
            args[i + 1]@
        } else {
            default
        },
    decreases args.len(),
{
    if args.len() > 0 && i > 0 {
        assert(args[0]@ != name);
        let rest = args.skip(1);
        assert forall|j: int| 0 <= j < i - 1 implies (#[trigger] rest[j])@ != name by {
            assert(args[j + 1]@ != name);
        }
        lemma_arg_value(rest, name, default, i - 1);
    }
}

/// An option has the argument behind its first mention; its default where it is not mentioned,
/// or nothing stands behind the mention.
pub proof fn law_options_have_the_argument_behind(
    args: Vec<String>,
    name: &str,
    default: &str,
    r: String,
    i: int,
)
    requires
        call_ensures(arg, (&args, name, default), r),
        0 <= i <= args@.len(),
        forall|j: int| 0 <= j < i ==> (#[trigger] args@[j])@ != name@,
        i == args@.len() || args@[i]@ == name@,
    ensures
        i + 1 < args@.len() ==> r@ == args@[i + 1]@,
        i + 1 >= args@.len() ==> r@ == default@,
{
    lemma_arg_value(args@, name@, default@, i);
}

/// A count goes up by one, but for the largest number.
pub proof fn law_counts_go_up_by_one(n: u64)
    ensures
        n < u64::MAX ==> one_more(n) == n + 1,
        n == u64::MAX ==> one_more(n) == n,
{
}

/// Books and references start empty, and a quote's mid is its own.
pub proof fn law_references_start_empty(r: Ref, b: HlBook, q: Quote, m: Double, i: int)
    requires
        call_ensures(Ref::new, (), r),
        call_ensures(HlBook::new, (), b),
        call_ensures(Quote::mid, (&q,), m),
        0 <= i < 3,
    ensures
        r.hist@[i]@.len() == 0 && r.lag@[i]@.len() == 0,
        b.hist@.len() == 0,
        m == q.mid,
{
    let h = r.hist@[i];
    let l = r.lag@[i];
}

/// A spread that is no number is passed over: the tightest is a number, at most every spread that
/// is one, and one of them, or the largest number where all are above it.
pub proof fn law_the_tightest_spread_passes_over_nans(qs: Seq<Quote>, i: int)
    ensures
        is_number(tightest(qs)),
        0 <= i < qs.len() && is_number(qs[i].half_bps) ==> units(tightest(qs)) <= units(
            qs[i].half_bps,
        ),
        tightest(qs) == (Double { bits: MAX }) || exists|k: int|
            0 <= k < qs.len() && (#[trigger] qs[k]).half_bps == tightest(qs),
    decreases qs.len(),
{
    law_constants_are_their_numbers(Double { bits: MAX });
    if qs.len() > 0 {
        let rest = qs.drop_last();
        let a = tightest(rest);
        let b = qs.last().half_bps;
        law_the_tightest_spread_passes_over_nans(rest, i);
        law_the_smaller_is_the_least(a, b);
        law_doubles_compare_as_numbers(a, b);
        law_doubles_compare_as_numbers(b, a);
        assert(qs[qs.len() - 1] == qs.last());
        if a != (Double { bits: MAX }) {
            let k = choose|k: int| 0 <= k < rest.len() && (#[trigger] rest[k]).half_bps == a;
            assert(qs[k].half_bps == a);
        }
    }
}

/// The composite's half-spread is the tightest of the quotes, whatever they are.
pub proof fn law_the_composite_spread_is_the_tightest(qs: Vec<Quote>, r: Option<RefPoint>, i: int)
    requires
        call_ensures(composite, (&qs,), r),
        0 <= i < qs@.len(),
    ensures
        r is Some,
        is_number(r->0.half_spread_bps),
        is_number(qs@[i].half_bps) ==> units(r->0.half_spread_bps) <= units(qs@[i].half_bps),
        r->0.half_spread_bps == (Double { bits: MAX }) || exists|k: int|
            0 <= k < qs@.len() && (#[trigger] qs@[k]).half_bps == r->0.half_spread_bps,
{
    law_the_tightest_spread_passes_over_nans(qs@, i);
}

} // verus!
