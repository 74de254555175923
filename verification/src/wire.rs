//! The venues' messages. Prices arrive as decimal text, and leave here as such.
use vstd::prelude::*;

use crate::double::Double;
use crate::feeds::{Ev, Source, Trade};
use crate::json::{
    array_in, as_array, as_str, as_u64, at_index, at_key, elem, get, items, parsed, read_text, seen,
    str_in, u64_in, Json, JsonView,
};
use crate::text::{chars_of, same, skip_0x, without_0x};

verus! {

/// A time stamp as sent: an integer, or a number in decimal text.
#[derive(Debug)]
pub enum Stamp {
    Ms(u64),
    Text(Option<String>),
}

/// A quote as sent. A price without text reads as zero.
#[derive(Debug)]
pub struct WireQuote {
    pub bid: Option<String>,
    pub ask: Option<String>,
    pub stamp: Stamp,
}

/// A trade as sent. A number without text reads as zero.
#[derive(Debug)]
pub struct WireTrade {
    pub px: Option<String>,
    pub sz: Option<String>,
    pub buy: bool,
    pub exch_ms: u64,
    pub buyer: String,
    pub seller: String,
    pub zero_hash: bool,
}

/// What a message holds.
#[derive(Debug)]
pub enum Wire {
    Quote(WireQuote),
    Trade(WireTrade),
}

/// What a time stamp is, mathematically.
pub enum StampView {
    Ms(u64),
    Text(Option<Seq<char>>),
}

/// What a message holds, mathematically.
pub enum WireView {
    Quote { bid: Option<Seq<char>>, ask: Option<Seq<char>>, stamp: StampView },
    Trade {
        px: Option<Seq<char>>,
        sz: Option<Seq<char>>,
        buy: bool,
        exch_ms: u64,
        buyer: Seq<char>,
        seller: Seq<char>,
        zero_hash: bool,
    },
}

/// The characters of an optional string.
pub open spec fn chars_in(s: Option<String>) -> Option<Seq<char>> {
    match s {
        Some(x) => Some(x@),
        None => None,
    }
}

impl View for Wire {
    type V = WireView;

    open spec fn view(&self) -> WireView {
        match self {
            Wire::Quote(q) => WireView::Quote {
                bid: chars_in(q.bid),
                ask: chars_in(q.ask),
                stamp: match q.stamp {
                    Stamp::Ms(t) => StampView::Ms(t),
                    Stamp::Text(s) => StampView::Text(chars_in(s)),
                },
            },
            Wire::Trade(t) => WireView::Trade {
                px: chars_in(t.px),
                sz: chars_in(t.sz),
                buy: t.buy,
                exch_ms: t.exch_ms,
                buyer: t.buyer@,
                seller: t.seller@,
                zero_hash: t.zero_hash,
            },
        }
    }
}

/// What each of the messages holds.
pub open spec fn wire_views(ws: Seq<Wire>) -> Seq<WireView> {
    ws.map_values(|w: Wire| w@)
}

// ---- scalars ----

/// The text from which a price is read: that of a string, or the decimal notation of a
/// number.
pub open spec fn number_text(o: Option<JsonView>) -> Option<Seq<char>> {
    match o {
        Some(JsonView::Str(s)) => Some(s),
        Some(JsonView::Number { unsigned, text }) => Some(text),
        _ => None,
    }
}

/// The text from which a price is read.
pub fn f(o: Option<&Json>) -> (r: Option<String>)
    ensures
        chars_in(r) == number_text(seen(o)),
{
    match o {
        Some(Json::Str(s)) => Some(s.clone()),
        Some(Json::Number { unsigned, text }) => Some(text.clone()),
        _ => None,
    }
}

/// An unsigned integer, or zero.
pub open spec fn u64_or_zero(o: Option<JsonView>) -> u64 {
    match u64_in(o) {
        Some(n) => n,
        None => 0,
    }
}

fn u64_or_0(o: Option<&Json>) -> (r: u64)
    ensures
        r == u64_or_zero(seen(o)),
{
    match as_u64(o) {
        Some(n) => n,
        None => 0,
    }
}

/// The characters of a string, or none.
pub open spec fn str_or_empty(o: Option<JsonView>) -> Seq<char> {
    match str_in(o) {
        Some(s) => s,
        None => Seq::empty(),
    }
}

fn string_or_empty(o: Option<&Json>) -> (r: String)
    ensures
        r@ == str_or_empty(seen(o)),
{
    match as_str(o) {
        Some(s) => s.to_owned(),
        None => String::new(),
    }
}

/// Whether a transaction hash consists of zeros alone, behind its `0x`.
pub open spec fn is_zero_hash(h: Seq<char>) -> bool {
    forall|i: int| 0 <= i < without_0x(h).len() ==> #[trigger] without_0x(h)[i] == '0'
}

fn zero_hash(h: &str) -> (r: bool)
    ensures
        r == is_zero_hash(h@),
{
    let cs = chars_of(h);
    let start = skip_0x(&cs);
    let mut i: usize = start;
    while i < cs.len()
        invariant
            start <= i <= cs@.len(),
            cs@ == h@,
            cs@.skip(start as int) == without_0x(h@),
            forall|j: int| 0 <= j < i - start ==> #[trigger] without_0x(h@)[j] == '0',
        decreases cs.len() - i,
    {
        assert(without_0x(h@)[i - start] == cs@[i as int]);
        if cs[i] != '0' {
            return false;
        }
        i += 1;
    }
    true
}

// ---- messages ----

/// What a Binance book ticker says: a quote, where it has a bid at all.
pub open spec fn binance_wires(v: JsonView) -> Seq<WireView> {
    let m = Some(v);
    if at_key(m, "b"@) is None {
        Seq::empty()
    } else {
        seq![
            WireView::Quote {
                bid: number_text(at_key(m, "b"@)),
                ask: number_text(at_key(m, "a"@)),
                stamp: StampView::Ms(u64_or_zero(at_key(m, "T"@))),
            },
        ]
    }
}

/// What a Bybit order book message says: a quote of the first level of each side.
pub open spec fn bybit_wires(v: JsonView) -> Seq<WireView> {
    let m = Some(v);
    let d = at_key(m, "data"@);
    seq![
        WireView::Quote {
            bid: number_text(at_index(at_index(at_key(d, "b"@), 0), 0)),
            ask: number_text(at_index(at_index(at_key(d, "a"@), 0), 0)),
            stamp: StampView::Ms(u64_or_zero(at_key(m, "ts"@))),
        },
    ]
}

/// What an OKX book message says: a quote of the first level of each side, where it has
/// data.
pub open spec fn okx_wires(v: JsonView) -> Seq<WireView> {
    let d = at_index(at_key(Some(v), "data"@), 0);
    if d is None {
        Seq::empty()
    } else {
        seq![
            WireView::Quote {
                bid: number_text(at_index(at_index(at_key(d, "bids"@), 0), 0)),
                ask: number_text(at_index(at_index(at_key(d, "asks"@), 0), 0)),
                stamp: StampView::Text(number_text(at_key(d, "ts"@))),
            },
        ]
    }
}

/// What one trade of a trades message says.
pub open spec fn hl_trade(t: JsonView) -> WireView {
    let m = Some(t);
    let users = at_key(m, "users"@);
    WireView::Trade {
        px: number_text(at_key(m, "px"@)),
        sz: number_text(at_key(m, "sz"@)),
        buy: str_in(at_key(m, "side"@)) == Some("B"@),
        exch_ms: u64_or_zero(at_key(m, "time"@)),
        buyer: str_or_empty(at_index(users, 0)),
        seller: str_or_empty(at_index(users, 1)),
        zero_hash: match str_in(at_key(m, "hash"@)) {
            Some(h) => is_zero_hash(h),
            None => false,
        },
    }
}

/// What a message of the chain says: on the `bbo` channel a quote, where both sides are
/// there; on the `trades` channel every trade, in order; on any other channel nothing.
pub open spec fn hl_wires(v: JsonView) -> Seq<WireView> {
    let m = Some(v);
    let d = at_key(m, "data"@);
    let channel = str_in(at_key(m, "channel"@));
    if channel == Some("bbo"@) {
        let b = at_index(at_key(d, "bbo"@), 0);
        let a = at_index(at_key(d, "bbo"@), 1);
        if b is None || a is None {
            Seq::empty()
        } else {
            seq![
                WireView::Quote {
                    bid: number_text(at_key(b, "px"@)),
                    ask: number_text(at_key(a, "px"@)),
                    stamp: StampView::Ms(u64_or_zero(at_key(d, "time"@))),
                },
            ]
        }
    } else if channel == Some("trades"@) {
        match array_in(d) {
            Some(ts) => ts.map_values(|t: JsonView| hl_trade(t)),
            None => Seq::empty(),
        }
    } else {
        Seq::empty()
    }
}

/// What a message of the given source says.
pub open spec fn source_wires(source: Source, v: JsonView) -> Seq<WireView> {
    match source {
        Source::Binance => binance_wires(v),
        Source::Bybit => bybit_wires(v),
        Source::Okx => okx_wires(v),
        Source::Hl => hl_wires(v),
    }
}

/// Reads a Binance book ticker.
pub fn parse_binance(v: &Json) -> (r: Vec<Wire>)
    ensures
        wire_views(r@) == binance_wires(v@),
{
    let m = Some(v);
    let mut r: Vec<Wire> = Vec::new();
    if get(m, "b").is_some() {
        let q = WireQuote {
            bid: f(get(m, "b")),
            ask: f(get(m, "a")),
            stamp: Stamp::Ms(u64_or_0(get(m, "T"))),
        };
        r.push(Wire::Quote(q));
    }
    assert(wire_views(r@) =~= binance_wires(v@));
    r
}

/// Reads a Bybit order book message.
pub fn parse_bybit(v: &Json) -> (r: Vec<Wire>)
    ensures
        wire_views(r@) == bybit_wires(v@),
{
    let m = Some(v);
    let d = get(m, "data");
    let q = WireQuote {
        bid: f(elem(elem(get(d, "b"), 0), 0)),
        ask: f(elem(elem(get(d, "a"), 0), 0)),
        stamp: Stamp::Ms(u64_or_0(get(m, "ts"))),
    };
    let mut r: Vec<Wire> = Vec::new();
    r.push(Wire::Quote(q));
    assert(wire_views(r@) =~= bybit_wires(v@));
    r
}

/// Reads an OKX book message.
pub fn parse_okx(v: &Json) -> (r: Vec<Wire>)
    ensures
        wire_views(r@) == okx_wires(v@),
{
    let d = elem(get(Some(v), "data"), 0);
    let mut r: Vec<Wire> = Vec::new();
    if d.is_some() {
        let q = WireQuote {
            bid: f(elem(elem(get(d, "bids"), 0), 0)),
            ask: f(elem(elem(get(d, "asks"), 0), 0)),
            stamp: Stamp::Text(f(get(d, "ts"))),
        };
        r.push(Wire::Quote(q));
    }
    assert(wire_views(r@) =~= okx_wires(v@));
    r
}

fn parse_trade(t: &Json) -> (r: WireTrade)
    ensures
        Wire::Trade(r)@ == hl_trade(t@),
{
    let m = Some(t);
    let users = get(m, "users");
    let buy = match as_str(get(m, "side")) {
        Some(s) => same(s, "B"),
        None => false,
    };
    let zero = match as_str(get(m, "hash")) {
        Some(h) => zero_hash(h),
        None => false,
    };
    WireTrade {
        px: f(get(m, "px")),
        sz: f(get(m, "sz")),
        buy,
        exch_ms: u64_or_0(get(m, "time")),
        buyer: string_or_empty(elem(users, 0)),
        seller: string_or_empty(elem(users, 1)),
        zero_hash: zero,
    }
}

/// Reads a message of the chain.
pub fn parse_hl(v: &Json) -> (r: Vec<Wire>)
    ensures
        wire_views(r@) == hl_wires(v@),
{
    let m = Some(v);
    let d = get(m, "data");
    let mut r: Vec<Wire> = Vec::new();
    let channel = match as_str(get(m, "channel")) {
        Some(c) => c,
        None => {
            assert(wire_views(r@) =~= hl_wires(v@));
            return r;
        },
    };
    if same(channel, "bbo") {
        let b = elem(get(d, "bbo"), 0);
        let a = elem(get(d, "bbo"), 1);
        if b.is_some() && a.is_some() {
            let q = WireQuote {
                bid: f(get(b, "px")),
                ask: f(get(a, "px")),
                stamp: Stamp::Ms(u64_or_0(get(d, "time"))),
            };
            r.push(Wire::Quote(q));
        }
    } else if same(channel, "trades") {
        if let Some(ts) = as_array(d) {
            for i in 0..ts.len()
                invariant
                    r@.len() == i,
                    forall|j: int| 0 <= j < i ==> (#[trigger] r@[j])@ == hl_trade(ts@[j]@),
            {
                r.push(Wire::Trade(parse_trade(&ts[i])));
            }
            assert(items(ts@).map_values(|t: JsonView| hl_trade(t)) =~= wire_views(r@));
        }
    }
    assert(wire_views(r@) =~= hl_wires(v@));
    r
}

/// Reads a message of the given source.
pub fn parse(source: Source, v: &Json) -> (r: Vec<Wire>)
    ensures
        wire_views(r@) == source_wires(source, v@),
{
    match source {
        Source::Binance => parse_binance(v),
        Source::Bybit => parse_bybit(v),
        Source::Okx => parse_okx(v),
        Source::Hl => parse_hl(v),
    }
}

/// What a text of the given source says: nothing where it is no JSON.
pub open spec fn text_wires(source: Source, v: Option<JsonView>) -> Seq<WireView> {
    match v {
        Some(j) => source_wires(source, j),
        None => Seq::empty(),
    }
}

/// Reads a text message of the given source.
pub fn read_message(source: Source, text: &str) -> (r: Vec<Wire>)
    ensures
        wire_views(r@) == text_wires(source, parsed(text@)),
{
    match read_text(text) {
        Some(v) => parse(source, &v),
        None => {
            let r: Vec<Wire> = Vec::new();
            assert(wire_views(r@) =~= Seq::empty());
            r
        },
    }
}

/// The event of a trade whose numbers have been read, in a frame that arrived at
/// `recv_wall_ms`.
pub fn trade_event(w: WireTrade, px: Double, sz: Double, recv_wall_ms: u64) -> (r: Ev)
    ensures
        r matches Ev::HlTrade(t) && t.px == px && t.sz == sz && t.buy == w.buy && t.exch_ms
            == w.exch_ms && t.recv_wall_ms == recv_wall_ms && t.buyer == w.buyer && t.seller == w.seller && t.zero_hash
            == w.zero_hash,
{
    Ev::HlTrade(
        Trade {
            px,
            sz,
            buy: w.buy,
            exch_ms: w.exch_ms,
            recv_wall_ms,
            buyer: w.buyer,
            seller: w.seller,
            zero_hash: w.zero_hash,
        },
    )
}

// ---- laws ----

/// A price is read from the characters of a string, or from the notation of a number; there is
/// none in anything else.
pub proof fn law_prices_are_read_from_their_text(o: Option<&Json>, r: Option<String>)
    requires
        call_ensures(f, (o,), r),
    ensures
        match o {
            Some(Json::Str(s)) => r is Some && r->0@ == s@,
            Some(Json::Number { unsigned, text }) => r is Some && r->0@ == text@,
            _ => r is None,
        },
        chars_in(r) == number_text(seen(o)),
{
}

/// Whether a message holds a quote and nothing else: with these prices, and stamped by an integer
/// that was sent as one, zero where it was not.
pub open spec fn says_quote(
    r: Seq<Wire>,
    bid: Option<JsonView>,
    ask: Option<JsonView>,
    stamp: Option<JsonView>,
) -> bool {
    &&& r.len() == 1
    &&& r[0] matches Wire::Quote(q) && chars_in(q.bid) == number_text(bid) && chars_in(q.ask)
        == number_text(ask) && (q.stamp matches Stamp::Ms(t) && t == (match u64_in(stamp) {
        Some(n) => n,
        None => 0,
    }))
}

/// A book ticker of Binance is a quote: the bid under `b`, the ask under `a`, stamped under `T`. A
/// message without a bid says nothing.
pub proof fn law_binance_quotes(v: Json, r: Vec<Wire>)
    requires
        call_ensures(parse_binance, (&v,), r),
    ensures
        at_key(Some(v@), "b"@) is None ==> r@.len() == 0,
        at_key(Some(v@), "b"@) is Some ==> says_quote(
            r@,
            at_key(Some(v@), "b"@),
            at_key(Some(v@), "a"@),
            at_key(Some(v@), "T"@),
        ),
{
    assert(wire_views(r@).len() == r@.len());
    if r@.len() > 0 {
        assert(wire_views(r@)[0] == r@[0]@);
    }
}

/// An order book of Bybit is a quote: the prices of the first levels under `b` and `a` of its
/// data, stamped under `ts`.
pub proof fn law_bybit_quotes(v: Json, r: Vec<Wire>)
    requires
        call_ensures(parse_bybit, (&v,), r),
    ensures
        says_quote(
            r@,
            at_index(at_index(at_key(at_key(Some(v@), "data"@), "b"@), 0), 0),
            at_index(at_index(at_key(at_key(Some(v@), "data"@), "a"@), 0), 0),
            at_key(Some(v@), "ts"@),
        ),
{
    assert(wire_views(r@).len() == r@.len());
    assert(wire_views(r@)[0] == r@[0]@);
}

/// A book of OKX is a quote: the prices of the first levels under `bids` and `asks` of its first
/// datum, stamped by the text under `ts`. A message without data says nothing.
pub proof fn law_okx_quotes(v: Json, r: Vec<Wire>, d: Option<JsonView>)
    requires
        call_ensures(parse_okx, (&v,), r),
        d == at_index(at_key(Some(v@), "data"@), 0),
    ensures
        d is None ==> r@.len() == 0,
        d is Some ==> r@.len() == 1 && (r@[0] matches Wire::Quote(q) && chars_in(q.bid)
            == number_text(at_index(at_index(at_key(d, "bids"@), 0), 0)) && chars_in(q.ask)
            == number_text(at_index(at_index(at_key(d, "asks"@), 0), 0)) && (q.stamp matches Stamp::Text(
            t,
        ) && chars_in(t) == number_text(at_key(d, "ts"@)))),
{
    assert(wire_views(r@).len() == r@.len());
    if r@.len() > 0 {
        assert(wire_views(r@)[0] == r@[0]@);
    }
}

/// A trade as the chain sends it: the taker bought where the side is `B`; the first user is the
/// buyer and the second the seller; its price, size and time as they are; and whether its hash is
/// zero.
pub open spec fn says_trade(w: Wire, t: Option<JsonView>) -> bool {
    w matches Wire::Trade(x) && {
        &&& chars_in(x.px) == number_text(at_key(t, "px"@))
        &&& chars_in(x.sz) == number_text(at_key(t, "sz"@))
        &&& x.buy <==> str_in(at_key(t, "side"@)) == Some("B"@)
        &&& x.exch_ms == (match u64_in(at_key(t, "time"@)) {
            Some(n) => n,
            None => 0,
        })
        &&& x.buyer@ == (match str_in(at_index(at_key(t, "users"@), 0)) {
            Some(s) => s,
            None => Seq::empty(),
        })
        &&& x.seller@ == (match str_in(at_index(at_key(t, "users"@), 1)) {
            Some(s) => s,
            None => Seq::empty(),
        })
        &&& x.zero_hash <==> (str_in(at_key(t, "hash"@)) matches Some(h) && is_zero_hash(h))
    }
}

/// What the chain sends: on `bbo` a quote of the first side's price and the second's, where both
/// are there, stamped with its time; on `trades` each trade, in order; on any other channel
/// nothing.
pub proof fn law_the_chain_quotes_and_trades(v: Json, r: Vec<Wire>, i: int)
    requires
        call_ensures(parse_hl, (&v,), r),
    ensures
        ({
            let m = Some(v@);
            let d = at_key(m, "data"@);
            let channel = str_in(at_key(m, "channel"@));
            let b = at_index(at_key(d, "bbo"@), 0);
            let a = at_index(at_key(d, "bbo"@), 1);
            &&& channel == Some("bbo"@) && b is Some && a is Some ==> says_quote(
                r@,
                at_key(b, "px"@),
                at_key(a, "px"@),
                at_key(d, "time"@),
            )
            &&& channel == Some("bbo"@) && (b is None || a is None) ==> r@.len() == 0
            &&& channel == Some("trades"@) ==> match array_in(d) {
                Some(ts) => r@.len() == ts.len() && (0 <= i < ts.len() ==> says_trade(
                    r@[i],
                    Some(ts[i]),
                )),
                None => r@.len() == 0,
            }
            &&& channel != Some("bbo"@) && channel != Some("trades"@) ==> r@.len() == 0
        }),
{
    reveal_strlit("bbo");
    reveal_strlit("trades");
    assert("bbo"@.len() == 3 && "trades"@.len() == 6);
    assert(wire_views(r@).len() == r@.len());
    if r@.len() > 0 {
        assert(wire_views(r@)[0] == r@[0]@);
    }
    if 0 <= i < r@.len() {
        assert(wire_views(r@)[i] == r@[i]@);
    }
}

/// A message is read as its source writes it, and a text that is no JSON says nothing.
pub proof fn law_messages_are_read_by_their_source(
    source: Source,
    text: &str,
    r: Vec<Wire>,
    v: Json,
    x: Vec<Wire>,
)
    requires
        call_ensures(read_message, (source, text), r),
        source == Source::Binance ==> call_ensures(parse_binance, (&v,), x),
        source == Source::Bybit ==> call_ensures(parse_bybit, (&v,), x),
        source == Source::Okx ==> call_ensures(parse_okx, (&v,), x),
        source == Source::Hl ==> call_ensures(parse_hl, (&v,), x),
    ensures
        parsed(text@) is None ==> r@.len() == 0,
        parsed(text@) == Some(v@) ==> wire_views(r@) == wire_views(x@),
{
    assert(wire_views(r@).len() == r@.len());
}

/// A hash is zero where nothing but zeros stands behind its `0x`, or in it where it has none.
pub proof fn law_zero_hashes_are_all_zeros(rest: Seq<char>)
    requires
        !(rest.len() >= 2 && rest[0] == '0' && rest[1] == 'x'),
    ensures
        is_zero_hash(seq!['0', 'x'] + rest) <==> forall|i: int|
            0 <= i < rest.len() ==> #[trigger] rest[i] == '0',
        is_zero_hash(rest) <==> forall|i: int| 0 <= i < rest.len() ==> #[trigger] rest[i] == '0',
{
    let h = seq!['0', 'x'] + rest;
    assert(h.skip(2) =~= rest);
    assert(without_0x(rest) == rest);
    assert(without_0x(h) == rest);
}

/// The event of a trade is the trade, with its numbers read and the time of its arrival.
pub proof fn law_trades_become_events(
    w: WireTrade,
    px: Double,
    sz: Double,
    recv_wall_ms: u64,
    r: Ev,
)
    requires
        call_ensures(trade_event, (w, px, sz, recv_wall_ms), r),
    ensures
        r matches Ev::HlTrade(t) && t.px == px && t.sz == sz && t.buy == w.buy && t.exch_ms
            == w.exch_ms && t.recv_wall_ms == recv_wall_ms && t.buyer@ == w.buyer@ && t.seller@
            == w.seller@ && t.zero_hash == w.zero_hash,
{
}

/// A message is taken apart by the parser of its source.
pub proof fn law_each_source_has_its_parser(
    v: Json,
    a: Vec<Wire>,
    b: Vec<Wire>,
    c: Vec<Wire>,
    d: Vec<Wire>,
    source: Source,
    r: Vec<Wire>,
)
    requires
        call_ensures(parse_binance, (&v,), a),
        call_ensures(parse_bybit, (&v,), b),
        call_ensures(parse_okx, (&v,), c),
        call_ensures(parse_hl, (&v,), d),
        call_ensures(parse, (source, &v), r),
    ensures
        source == Source::Binance ==> wire_views(r@) == wire_views(a@),
        source == Source::Bybit ==> wire_views(r@) == wire_views(b@),
        source == Source::Okx ==> wire_views(r@) == wire_views(c@),
        source == Source::Hl ==> wire_views(r@) == wire_views(d@),
{
}

} // verus!
