//! Who is trading against whom: every address measured by what the chain's mid did after its
//! fills.
//!
//! The mids are selected here; the arithmetic on them is the caller's.
use vstd::prelude::*;

use std::collections::VecDeque;

use crate::double::Double;
use crate::feeds::{
    latest_at, latest_before, mid_of, one_more, pushed, venue_index, HlBook, Quote, Ref, RefPoint,
    Trade, BOOK, LAGS,
};
use crate::regulator::since;

verus! {

/// How long before a fill the venues' move is measured, in milliseconds.
pub const PRE_MS: u64 = 500;

/// The oldest venue quote that a reference is built from, in milliseconds.
pub const MAX_AGE_MS: u64 = 1500;

/// The horizons at which a fill is marked out, in milliseconds.
pub open spec fn horizon(i: int) -> int {
    if i == 0 {
        100
    } else if i == 1 {
        1_000
    } else {
        5_000
    }
}

/// A horizon, in milliseconds.
pub fn horizon_ms(i: usize) -> (r: u64)
    ensures
        r == horizon(i as int),
{
    if i == 0 {
        100
    } else if i == 1 {
        1_000
    } else {
        5_000
    }
}

/// A fill that waits for its markouts.
#[derive(Debug)]
pub struct Pending {
    pub t: Trade,
    /// The mid before the fill.
    pub mid0: Double,
    /// The venues' reference at the fill and `PRE_MS` before it.
    pub pre: Option<(RefPoint, RefPoint)>,
    /// The mid at each horizon after the fill, once it is known.
    pub marks: [Option<Double>; 3],
}

/// The mid at a horizon after a fill at `t`: what is known stays; what is not is read from
/// the book once the book's clock has reached the horizon.
pub open spec fn mark(known: Option<Double>, t: u64, i: int, hist: Seq<Quote>, now: u64) -> Option<
    Double,
> {
    if known is Some {
        known
    } else if now >= t + horizon(i) {
        mid_of(latest_at(hist, (t + horizon(i)) as u64))
    } else {
        None
    }
}

impl Pending {
    /// Whether every markout is known.
    pub open spec fn complete(self) -> bool {
        forall|i: int| 0 <= i < 3 ==> #[trigger] self.marks@[i] is Some
    }

    /// Whether this is `before` with the marks that are due at `now`.
    pub open spec fn marked_from(self, before: Pending, hist: Seq<Quote>, now: u64) -> bool {
        &&& self.t == before.t
        &&& self.mid0 == before.mid0
        &&& self.pre == before.pre
        &&& forall|i: int|
            0 <= i < 3 ==> #[trigger] self.marks@[i] == mark(
                before.marks@[i],
                before.t.exch_ms,
                i,
                hist,
                now,
            )
    }

    fn is_complete(&self) -> (r: bool)
        ensures
            r == self.complete(),
    {
        let r = self.marks[0].is_some() && self.marks[1].is_some() && self.marks[2].is_some();
        assert(r ==> self.complete()) by {
            assert forall|i: int| r && 0 <= i < 3 implies #[trigger] self.marks@[i] is Some by {
                assert(i == 0 || i == 1 || i == 2);
            }
        }
        assert(self.complete() ==> self.marks@[0] is Some && self.marks@[1] is Some
            && self.marks@[2] is Some);
        r
    }
}

fn mark_due(p: &mut Pending, book: &HlBook, now: u64)
    ensures
        final(p).marked_from(*old(p), book.hist@, now),
{
    let t: u64 = p.t.exch_ms;
    for i in 0..3usize
        invariant
            t == old(p).t.exch_ms,
            p.t == old(p).t,
            p.mid0 == old(p).mid0,
            p.pre == old(p).pre,
            forall|j: int|
                0 <= j < 3 ==> #[trigger] p.marks@[j] == (if j < i {
                    mark(old(p).marks@[j], t, j, book.hist@, now)
                } else {
                    old(p).marks@[j]
                }),
    {
        let h: u64 = horizon_ms(i);
        if p.marks[i].is_none() && now >= t && now - t >= h {
            p.marks[i] = book.mid_at(t + h);
        }
    }
}

/// Marks the pending fills as far as the book reaches at `now`, and gives those in front
/// whose markouts are all known, in order. The others stay, in order.
pub fn resolve(pending: &mut VecDeque<Pending>, book: &HlBook, now: u64) -> (r: Vec<Pending>)
    ensures
        r@.len() + final(pending)@.len() == old(pending)@.len(),
        forall|i: int|
            0 <= i < r@.len() ==> (#[trigger] r@[i]).complete() && r@[i].marked_from(
                old(pending)@[i],
                book.hist@,
                now,
            ),
        forall|i: int|
            0 <= i < final(pending)@.len() ==> (#[trigger] final(pending)@[i]).marked_from(
                old(pending)@[r@.len() + i],
                book.hist@,
                now,
            ),
        final(pending)@.len() > 0 ==> !final(pending)@[0].complete(),
{
    let n: usize = pending.len();
    let ghost before = pending@;
    for k in 0..n
        invariant
            n == before.len(),
            pending@.len() == n,
            forall|i: int| 0 <= i < n - k ==> #[trigger] pending@[i] == before[i + k],
            forall|i: int|
                n - k <= i < n ==> (#[trigger] pending@[i]).marked_from(
                    before[i - (n - k)],
                    book.hist@,
                    now,
                ),
    {
        if let Some(mut p) = pending.pop_front() {
            mark_due(&mut p, book, now);
            pending.push_back(p);
        }
    }
    let ghost after = pending@;
    let mut done: Vec<Pending> = Vec::new();
    while pending.len() > 0 && pending[0].is_complete()
        invariant
            after.len() == before.len(),
            forall|i: int|
                0 <= i < after.len() ==> (#[trigger] after[i]).marked_from(
                    before[i],
                    book.hist@,
                    now,
                ),
            done@.len() <= after.len(),
            done@ == after.take(done@.len() as int),
            pending@ == after.skip(done@.len() as int),
            forall|i: int| 0 <= i < done@.len() ==> (#[trigger] done@[i]).complete(),
        decreases pending@.len(),
    {
        let ghost m = done@.len() as int;
        if let Some(p) = pending.pop_front() {
            done.push(p);
        }
        assert(done@ =~= after.take(m + 1));
        assert(pending@ =~= after.skip(m + 1));
    }
    done
}

/// What is watched while a window lasts.
pub struct Watch {
    pub book: HlBook,
    pub cex: Ref,
    /// Fills that wait for their markouts, oldest first.
    pub pending: VecDeque<Pending>,
    /// Fills with a zero transaction hash.
    pub zero_hash: u64,
    /// Fills before which no mid is known.
    pub no_mid: u64,
}

/// The venues' reference at a fill and `PRE_MS` before it, where both are known. What is
/// before the start of the clock is at its start.
pub open spec fn pre_move(cex: Ref, t: u64) -> Option<(RefPoint, RefPoint)> {
    let early = since(t, PRE_MS) as u64;
    match (cex.point_at(t, MAX_AGE_MS), cex.point_at(early, MAX_AGE_MS)) {
        (Some(now), Some(before)) => Some((now, before)),
        _ => None,
    }
}

impl Watch {
    /// Nothing seen yet.
    pub fn new() -> (r: Watch)
        ensures
            r.cex.sound(),
            forall|i: int| 0 <= i < 3 ==> (#[trigger] r.cex.hist@[i])@ == Seq::<Quote>::empty(),
            forall|i: int| 0 <= i < 3 ==> (#[trigger] r.cex.lag@[i])@ == Seq::<i128>::empty(),
            r.book.hist@ == Seq::<Quote>::empty(),
            r.pending@ == Seq::<Pending>::empty(),
            r.zero_hash == 0,
            r.no_mid == 0,
    {
        Watch {
            book: HlBook::new(),
            cex: Ref::new(),
            pending: VecDeque::new(),
            zero_hash: 0,
            no_mid: 0,
        }
    }

    /// Takes in a quote of a venue.
    pub fn quote(&mut self, venue: &str, q: Quote)
        requires
            venue_index(venue@) is Some,
        ensures
            old(self).cex.sound() && q.sound() ==> final(self).cex.sound(),
            forall|i: int|
                0 <= i < 3 ==> (#[trigger] final(self).cex.hist@[i])@ == (if venue_index(venue@)
                    == Some(i) {
                    pushed(old(self).cex.hist@[i]@, q, BOOK as nat)
                } else {
                    old(self).cex.hist@[i]@
                }),
            forall|i: int|
                0 <= i < 3 ==> (#[trigger] final(self).cex.lag@[i])@ == (if venue_index(venue@)
                    == Some(i) {
                    pushed(old(self).cex.lag@[i]@, q.lag(), LAGS as nat)
                } else {
                    old(self).cex.lag@[i]@
                }),
            *final(self) == (Watch { cex: final(self).cex, ..*old(self) }),
    {
        self.cex.set(venue, q);
    }

    /// Takes in a quote of the chain, and gives the fills whose markouts it completes.
    pub fn bbo(&mut self, q: Quote) -> (r: Vec<Pending>)
        ensures
            final(self).book.hist@ == pushed(old(self).book.hist@, q, BOOK as nat),
            r@.len() + final(self).pending@.len() == old(self).pending@.len(),
            forall|i: int|
                0 <= i < r@.len() ==> (#[trigger] r@[i]).complete() && r@[i].marked_from(
                    old(self).pending@[i],
                    final(self).book.hist@,
                    q.exch_ms,
                ),
            forall|i: int|
                0 <= i < final(self).pending@.len() ==> (
                #[trigger] final(self).pending@[i]).marked_from(
                    old(self).pending@[r@.len() + i],
                    final(self).book.hist@,
                    q.exch_ms,
                ),
            final(self).pending@.len() > 0 ==> !final(self).pending@[0].complete(),
            *final(self) == (Watch {
                book: final(self).book,
                pending: final(self).pending,
                ..*old(self)
            }),
    {
        self.book.set(q);
        resolve(&mut self.pending, &self.book, q.exch_ms)
    }

    /// Takes in a fill. It is measured from the mid strictly before it: the quote stamped
    /// with the fill's own millisecond is post-trade state. A fill before which no mid is
    /// known is only counted.
    pub fn trade(&mut self, t: Trade)
        requires
            old(self).cex.sound(),
        ensures
            final(self).zero_hash == (if t.zero_hash {
                one_more(old(self).zero_hash)
            } else {
                old(self).zero_hash
            }),
            match mid_of(latest_before(old(self).book.hist@, t.exch_ms)) {
                None => final(self).pending@ == old(self).pending@ && final(self).no_mid
                    == one_more(old(self).no_mid),
                Some(mid0) => final(self).no_mid == old(self).no_mid && final(self).pending@.len()
                    == old(self).pending@.len() + 1 && final(self).pending@.drop_last()
                    == old(self).pending@ && ({
                    let p = final(self).pending@.last();
                    &&& p.t == t
                    &&& p.mid0 == mid0
                    &&& p.pre == pre_move(old(self).cex, t.exch_ms)
                    &&& forall|i: int| 0 <= i < 3 ==> #[trigger] p.marks@[i] is None
                }),
            },
            final(self).book == old(self).book,
            final(self).cex == old(self).cex,
    {
        if t.zero_hash {
            self.zero_hash = self.zero_hash.saturating_add(1);
        }
        let mid0 = match self.book.mid_before(t.exch_ms) {
            Some(m) => m,
            None => {
                self.no_mid = self.no_mid.saturating_add(1);
                return;
            },
        };
        let now = self.cex.at(t.exch_ms, MAX_AGE_MS);
        let before = self.cex.at(t.exch_ms.saturating_sub(PRE_MS), MAX_AGE_MS);
        let pre = match (now, before) {
            (Some(a), Some(b)) => Some((a, b)),
            _ => None,
        };
        let ghost waiting = self.pending@;
        self.pending.push_back(Pending { t, mid0, pre, marks: [None, None, None] });
        assert(self.pending@.drop_last() =~= waiting);
    }
}

// ---- fills ----

/// A fill with its markouts.
#[derive(Debug)]
pub struct Fill {
    pub ms: u64,
    pub taker: String,
    pub maker: String,
    pub notional: Double,
    /// Half-spread that the taker paid.
    pub eff: Double,
    /// Markouts, seen from the taker.
    pub mo: [Double; 3],
    /// The venues' move in the taker's direction before the fill.
    pub pre: Option<Double>,
    /// A zero transaction hash: a sub-order of a TWAP.
    pub twap: bool,
}

/// What a fill is measured at, in double arithmetic, `side` being one for a buy and minus one
/// for a sell: `notional` is price times size, `eff` is `side * (px / mid0 - 1) * 1e4`,
/// `mo[i]` is `side * (marks[i] / mid0 - 1) * 1e4` and `pre` is
/// `side * (pre.0 / pre.1 - 1) * 1e4`, of the composite mids.
#[derive(Clone, Copy, Debug)]
pub struct Measures {
    pub notional: Double,
    pub eff: Double,
    pub mo: [Double; 3],
    pub pre: Option<Double>,
}

/// The fill that a pending one has become.
pub fn fill(p: &Pending, m: Measures) -> (r: Fill)
    ensures
        r.ms == p.t.exch_ms,
        r.taker@ == p.t.taker_view(),
        r.maker@ == p.t.maker_view(),
        r.twap == p.t.zero_hash,
        r.notional == m.notional,
        r.eff == m.eff,
        r.mo == m.mo,
        r.pre == m.pre,
{
    Fill {
        ms: p.t.exch_ms,
        taker: p.t.taker().to_owned(),
        maker: p.t.maker().to_owned(),
        notional: m.notional,
        eff: m.eff,
        mo: m.mo,
        pre: m.pre,
        twap: p.t.zero_hash,
    }
}

// ---- laws ----

/// A markout that is known never changes.
pub proof fn law_markouts_are_final(before: Pending, after: Pending, hist: Seq<Quote>, now: u64, i:
    int)
    requires
        after.marked_from(before, hist, now),
        0 <= i < 3,
        before.marks@[i] is Some,
    ensures
        after.marks@[i] == before.marks@[i],
{
    let m = after.marks@[i];
}

/// A fill is marked out at a horizon only once the chain's clock has reached it, and with the
/// chain's own mid as of that moment.
pub proof fn law_markouts_wait_for_their_horizon(
    before: Pending,
    after: Pending,
    hist: Seq<Quote>,
    now: u64,
    i: int,
)
    requires
        after.marked_from(before, hist, now),
        0 <= i < 3,
        before.marks@[i] is None,
        after.marks@[i] is Some,
    ensures
        now >= before.t.exch_ms + horizon(i),
        after.marks@[i] == mid_of(latest_at(hist, (before.t.exch_ms + horizon(i)) as u64)),
{
    let m = after.marks@[i];
}

/// A fill whose last horizon has not been reached is not complete: nothing fills in for a
/// markout that is not known.
pub proof fn law_late_fills_stay_unresolved(
    before: Pending,
    after: Pending,
    hist: Seq<Quote>,
    now: u64,
)
    requires
        after.marked_from(before, hist, now),
        before.marks@[2] is None,
        now < before.t.exch_ms + horizon(2),
    ensures
        after.marks@[2] is None,
        !after.complete(),
{
    let m = after.marks@[2];
}

/// The horizons are a hundred milliseconds, a second and five seconds.
pub proof fn law_horizons_are_of_a_tenth_one_and_five_seconds(i: usize, r: u64)
    requires
        call_ensures(horizon_ms, (i,), r),
        i < 3,
    ensures
        i == 0 ==> r == 100,
        i == 1 ==> r == 1_000,
        i == 2 ==> r == 5_000,
        horizon(i as int) == r,
{
}

/// What becomes of a fill that waits, once the book's clock has reached `now`: at each horizon it
/// keeps the mid that it has; else it gets that of the book as of a hundred milliseconds, a
/// second and five seconds after the fill, once the clock is there; and nothing before.
pub open spec fn is_marked(
    before: Pending,
    after: Pending,
    k: int,
    now: u64,
    book: HlBook,
    m: Option<Double>,
) -> bool {
    let due = before.t.exch_ms + if k == 0 {
        100int
    } else if k == 1 {
        1_000
    } else {
        5_000
    };
    &&& after.t == before.t
    &&& after.mid0 == before.mid0
    &&& after.pre == before.pre
    &&& before.marks@[k] is Some ==> after.marks@[k] == before.marks@[k]
    &&& before.marks@[k] is None && now < due ==> after.marks@[k] is None
    &&& before.marks@[k] is None && now >= due && call_ensures(
        HlBook::mid_at,
        (&book, due as u64),
        m,
    ) ==> after.marks@[k] == m
}

/// Waiting fills leave in the order in which they came, each once all its mids are known; and
/// every one of them, whether it leaves or stays, has the mids that are due.
pub proof fn law_fills_are_marked_when_due(
    pending: &mut VecDeque<Pending>,
    book: HlBook,
    now: u64,
    r: Vec<Pending>,
    i: int,
    k: int,
    m: Option<Double>,
)
    requires
        call_ensures(resolve, (pending, &book, now), r),
        0 <= i < old(pending)@.len(),
        0 <= k < 3,
    ensures
        r@.len() + final(pending)@.len() == old(pending)@.len(),
        i < r@.len() ==> is_marked(old(pending)@[i], r@[i], k, now, book, m) && r@[i].marks@[k] is Some,
        i >= r@.len() ==> is_marked(
            old(pending)@[i],
            final(pending)@[i - r@.len()],
            k,
            now,
            book,
            m,
        ),
        final(pending)@.len() > 0 ==> exists|j: int|
            0 <= j < 3 && #[trigger] final(pending)@[0].marks@[j] is None,
{
    if i < r@.len() {
        let x = r@[i];
        let y = x.marks@[k];
    } else {
        let x = final(pending)@[i - r@.len()];
        let y = x.marks@[k];
    }
}

/// A quote of the chain goes to the book, and the waiting fills are marked with the book that has
/// it, at its time.
pub proof fn law_quotes_mark_the_waiting_fills(
    w: &mut Watch,
    q: Quote,
    r: Vec<Pending>,
    i: int,
    k: int,
    m: Option<Double>,
)
    requires
        call_ensures(Watch::bbo, (w, q), r),
        0 <= i < old(w).pending@.len(),
        0 <= k < 3,
    ensures
        old(w).book.hist@.len() < 400 ==> final(w).book.hist@ == old(w).book.hist@.push(q),
        old(w).book.hist@.len() == 400 ==> final(w).book.hist@ == old(w).book.hist@.skip(1).push(q),
        final(w).cex == old(w).cex,
        final(w).zero_hash == old(w).zero_hash,
        final(w).no_mid == old(w).no_mid,
        r@.len() + final(w).pending@.len() == old(w).pending@.len(),
        i < r@.len() ==> is_marked(
            old(w).pending@[i],
            r@[i],
            k,
            q.exch_ms,
            final(w).book,
            m,
        ) && r@[i].marks@[k] is Some,
        i >= r@.len() ==> is_marked(
            old(w).pending@[i],
            final(w).pending@[i - r@.len()],
            k,
            q.exch_ms,
            final(w).book,
            m,
        ),
{
    assert(old(w).book.hist@.len() == 400 ==> old(w).book.hist@.push(q).skip(1) =~= old(
        w,
    ).book.hist@.skip(1).push(q));
    if i < r@.len() {
        let x = r@[i];
        let y = x.marks@[k];
    } else {
        let x = final(w).pending@[i - r@.len()];
        let y = x.marks@[k];
    }
}

/// A fill waits behind the others, from the mid strictly before it, with the venues' references
/// at its time and half a second earlier, of quotes at most a second and a half old, where both
/// are there; where there is no mid before it, it is counted instead. Fills of a zero hash are
/// counted in any case.
pub proof fn law_fills_wait_from_the_mid_before_them(
    w: &mut Watch,
    t: Trade,
    mid: Option<Double>,
    now: Option<RefPoint>,
    before: Option<RefPoint>,
    early: u64,
)
    requires
        call_ensures(Watch::trade, (w, t), ()),
        call_ensures(HlBook::mid_before, (&old(w).book, t.exch_ms), mid),
        early == if t.exch_ms >= 500 {
            t.exch_ms - 500
        } else {
            0
        },
        call_ensures(Ref::at, (&old(w).cex, t.exch_ms, 1500), now),
        call_ensures(Ref::at, (&old(w).cex, early, 1500), before),
        old(w).zero_hash < u64::MAX,
        old(w).no_mid < u64::MAX,
    ensures
        final(w).book == old(w).book,
        final(w).cex == old(w).cex,
        final(w).zero_hash - old(w).zero_hash == (if t.zero_hash {
            1int
        } else {
            0
        }),
        mid is None ==> final(w).pending@ == old(w).pending@ && final(w).no_mid == old(w).no_mid + 1,
        mid matches Some(x) ==> {
            let p = final(w).pending@.last();
            &&& final(w).no_mid == old(w).no_mid
            &&& final(w).pending@.len() == old(w).pending@.len() + 1
            &&& final(w).pending@.drop_last() == old(w).pending@
            &&& p.t == t
            &&& p.mid0 == x
            &&& p.pre is Some <==> now is Some && before is Some
            &&& p.pre matches Some(y) ==> now == Some(y.0) && before == Some(y.1)
            &&& p.marks@[0] is None && p.marks@[1] is None && p.marks@[2] is None
        },
{
}

/// A fill keeps what is measured of it, at each horizon for itself; it is of its trade's time,
/// taker and maker; and a zero hash makes it a sub-order of a TWAP.
pub proof fn law_fills_keep_what_is_measured(p: Pending, m: Measures, r: Fill, i: int)
    requires
        call_ensures(fill, (&p, m), r),
        0 <= i < 3,
    ensures
        r.ms == p.t.exch_ms,
        p.t.buy ==> r.taker@ == p.t.buyer@ && r.maker@ == p.t.seller@,
        !p.t.buy ==> r.taker@ == p.t.seller@ && r.maker@ == p.t.buyer@,
        r.mo@[i] == m.mo@[i],
        r.notional == m.notional,
        r.eff == m.eff,
        r.pre == m.pre,
        r.twap == p.t.zero_hash,
{
}

/// A quote of a venue is taken in as the reference takes it in, and changes nothing else.
pub proof fn law_venue_quotes_go_to_the_reference(w: &mut Watch, venue: &str, q: Quote, v: int)
    requires
        call_ensures(Watch::quote, (w, venue, q), ()),
        0 <= v < 3,
    ensures
        *final(w) == (Watch { cex: final(w).cex, ..*old(w) }),
        venue_index(venue@) != Some(v) ==> final(w).cex.hist@[v]@ == old(w).cex.hist@[v]@,
        venue_index(venue@) == Some(v) && old(w).cex.hist@[v]@.len() < 400
            ==> final(w).cex.hist@[v]@ == old(w).cex.hist@[v]@.push(q),
        venue_index(venue@) == Some(v) && old(w).cex.hist@[v]@.len() == 400
            ==> final(w).cex.hist@[v]@ == old(w).cex.hist@[v]@.skip(1).push(q),
        venue_index(venue@) != Some(v) ==> final(w).cex.lag@[v]@ == old(w).cex.lag@[v]@,
        venue_index(venue@) == Some(v) && old(w).cex.lag@[v]@.len() < 2000
            ==> final(w).cex.lag@[v]@ == old(w).cex.lag@[v]@.push(
            (q.recv_wall_ms - q.exch_ms) as i128,
        ),
{
    let h = final(w).cex.hist@[v];
    let l = final(w).cex.lag@[v];
    assert(old(w).cex.hist@[v]@.len() == 400 ==> old(w).cex.hist@[v]@.push(q).skip(1) =~= old(
        w,
    ).cex.hist@[v]@.skip(1).push(q));
}

/// Nothing is seen and nothing waits at the start.
pub proof fn law_watching_starts_from_nothing(w: Watch, i: int)
    requires
        call_ensures(Watch::new, (), w),
        0 <= i < 3,
    ensures
        w.pending@.len() == 0 && w.zero_hash == 0 && w.no_mid == 0,
        w.book.hist@.len() == 0 && w.cex.hist@[i]@.len() == 0 && w.cex.lag@[i]@.len() == 0,
{
    let h = w.cex.hist@[i];
    let l = w.cex.lag@[i];
}

} // verus!
