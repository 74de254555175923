//! The streams to open, what to subscribe to on them, and how each is kept alive.
use vstd::prelude::*;
use vstd::string::*;

use crate::feeds::{arg, arg_value, lemma_arg_value, Source};
use crate::json::{
    at_index, at_key, contents, parsed, render, rendered, string_array, value_array, value_insert, value_object,
    value_str, JsonView,
};
use crate::text::{lowercase, to_lower, to_upper, uppercase};
use crate::wire::{read_message, text_wires, wire_views, Wire};

verus! {

/// A stream to open: its address, the subscription to send, and whose messages it carries.
#[derive(Debug)]
pub struct Stream {
    pub url: String,
    pub sub: Option<String>,
    pub source: Source,
}

/// What a stream is, mathematically.
pub struct StreamView {
    pub url: Seq<char>,
    pub sub: Option<Seq<char>>,
    pub source: Source,
}

impl View for Stream {
    type V = StreamView;

    open spec fn view(&self) -> StreamView {
        StreamView {
            url: self.url@,
            sub: match self.sub {
                Some(s) => Some(s@),
                None => None,
            },
            source: self.source,
        }
    }
}

/// What each stream is.
pub open spec fn stream_views(s: Seq<Stream>) -> Seq<StreamView> {
    s.map_values(|x: Stream| x@)
}

/// The coin that the option `--coin` names, in upper case; Bitcoin where it is not given.
pub fn coin(args: &Vec<String>) -> (r: String)
    ensures
        r@ == uppercase(arg_value(args@, "--coin"@, "BTC"@)),
{
    to_upper(arg(args, "--coin", "BTC").as_str())
}

// ---- subscriptions ----

/// The Bybit subscription to the top of the book of `sym`.
pub open spec fn bybit_sub(sym: Seq<char>) -> JsonView {
    JsonView::Object(
        Map::empty().insert("op"@, JsonView::Str("subscribe"@)).insert(
            "args"@,
            JsonView::Array(seq![JsonView::Str("orderbook.1."@ + sym + "USDT"@)]),
        ),
    )
}

/// The OKX subscription to the best bid and ask of `sym`.
pub open spec fn okx_sub(sym: Seq<char>) -> JsonView {
    let topic = JsonView::Object(
        Map::empty().insert("channel"@, JsonView::Str("bbo-tbt"@)).insert(
            "instId"@,
            JsonView::Str(sym + "-USDT-SWAP"@),
        ),
    );
    JsonView::Object(
        Map::empty().insert("op"@, JsonView::Str("subscribe"@)).insert(
            "args"@,
            JsonView::Array(seq![topic]),
        ),
    )
}

/// The chain's subscription to a channel of `sym`.
pub open spec fn hl_sub(channel: Seq<char>, sym: Seq<char>) -> JsonView {
    let topic = JsonView::Object(
        Map::empty().insert("type"@, JsonView::Str(channel)).insert("coin"@, JsonView::Str(sym)),
    );
    JsonView::Object(
        Map::empty().insert("method"@, JsonView::Str("subscribe"@)).insert("subscription"@, topic),
    )
}

/// The text of the Bybit subscription.
pub fn bybit_subscription(sym: &str) -> (r: String)
    ensures
        r@ == rendered(bybit_sub(sym@)),
{
    let topic = String::from_str("orderbook.1.").concat(sym).concat("USDT");
    let mut v = value_object();
    value_insert(&mut v, "op", value_str("subscribe"));
    value_insert(&mut v, "args", string_array(topic.as_str()));
    render(&v)
}

/// The text of the OKX subscription.
pub fn okx_subscription(sym: &str) -> (r: String)
    ensures
        r@ == rendered(okx_sub(sym@)),
{
    let inst = String::from_str(sym).concat("-USDT-SWAP");
    let mut topic = value_object();
    value_insert(&mut topic, "channel", value_str("bbo-tbt"));
    value_insert(&mut topic, "instId", value_str(inst.as_str()));
    let ghost t = contents(topic);
    let mut topics: Vec<serde_json::Value> = Vec::new();
    topics.push(topic);
    let args = value_array(topics);
    assert(contents(args)->Array_0 =~= seq![t]);
    let mut v = value_object();
    value_insert(&mut v, "op", value_str("subscribe"));
    value_insert(&mut v, "args", args);
    render(&v)
}

/// The text of a subscription on the chain.
pub fn hl_subscription(channel: &str, sym: &str) -> (r: String)
    ensures
        r@ == rendered(hl_sub(channel@, sym@)),
{
    let mut topic = value_object();
    value_insert(&mut topic, "type", value_str(channel));
    value_insert(&mut topic, "coin", value_str(sym));
    let mut v = value_object();
    value_insert(&mut v, "method", value_str("subscribe"));
    value_insert(&mut v, "subscription", topic);
    render(&v)
}

/// The Binance stream of the coin `lower`, in lower case. It needs no subscription.
pub open spec fn binance_stream_of(lower: Seq<char>) -> StreamView {
    StreamView {
        url: "wss://fstream.binance.com/ws/"@ + lower + "usdt@bookTicker"@,
        sub: None,
        source: Source::Binance,
    }
}

/// The Binance stream of the coin `lower`, in lower case.
pub fn binance_stream(lower: &str) -> (r: Stream)
    ensures
        r@ == binance_stream_of(lower@),
{
    Stream {
        url: String::from_str("wss://fstream.binance.com/ws/").concat(lower).concat(
            "usdt@bookTicker",
        ),
        sub: None,
        source: Source::Binance,
    }
}

/// The venues' streams for `sym`: the book tickers of its USDT perpetual.
pub open spec fn venue_streams(sym: Seq<char>) -> Seq<StreamView> {
    seq![
        binance_stream_of(lowercase(sym)),
        StreamView {
            url: "wss://stream.bybit.com/v5/public/linear"@,
            sub: Some(rendered(bybit_sub(sym))),
            source: Source::Bybit,
        },
        StreamView {
            url: "wss://ws.okx.com:8443/ws/v5/public"@,
            sub: Some(rendered(okx_sub(sym))),
            source: Source::Okx,
        },
    ]
}

/// The chain's streams for `sym`: its trades, and its best bid and ask.
pub open spec fn chain_streams(sym: Seq<char>) -> Seq<StreamView> {
    seq![
        StreamView {
            url: "wss://api.hyperliquid.xyz/ws"@,
            sub: Some(rendered(hl_sub("trades"@, sym))),
            source: Source::Hl,
        },
        StreamView {
            url: "wss://api.hyperliquid.xyz/ws"@,
            sub: Some(rendered(hl_sub("bbo"@, sym))),
            source: Source::Hl,
        },
    ]
}

/// The streams for `sym`: those of the three venues where `cex` asks for them, and the
/// chain's own two.
pub fn streams(sym: &str, cex: bool) -> (r: Vec<Stream>)
    ensures
        stream_views(r@) == (if cex {
            venue_streams(sym@)
        } else {
            Seq::empty()
        }) + chain_streams(sym@),
{
    let mut r: Vec<Stream> = Vec::new();
    if cex {
        let lower = to_lower(sym);
        r.push(binance_stream(lower.as_str()));
        r.push(
            Stream {
                url: String::from_str("wss://stream.bybit.com/v5/public/linear"),
                sub: Some(bybit_subscription(sym)),
                source: Source::Bybit,
            },
        );
        r.push(
            Stream {
                url: String::from_str("wss://ws.okx.com:8443/ws/v5/public"),
                sub: Some(okx_subscription(sym)),
                source: Source::Okx,
            },
        );
    }
    assert(stream_views(r@) =~= (if cex {
        venue_streams(sym@)
    } else {
        Seq::empty()
    }));
    r.push(
        Stream {
            url: String::from_str("wss://api.hyperliquid.xyz/ws"),
            sub: Some(hl_subscription("trades", sym)),
            source: Source::Hl,
        },
    );
    r.push(
        Stream {
            url: String::from_str("wss://api.hyperliquid.xyz/ws"),
            sub: Some(hl_subscription("bbo", sym)),
            source: Source::Hl,
        },
    );
    assert(stream_views(r@) =~= (if cex {
        venue_streams(sym@)
    } else {
        Seq::empty()
    }) + chain_streams(sym@));
    r
}

// ---- keeping a stream alive ----

/// What happened on a stream.
#[derive(Debug)]
pub enum Happened {
    /// The connection stands.
    Connected,
    /// There is no connection.
    Refused,
    /// The subscription went out.
    Subscribed,
    /// A text frame came.
    Text(String),
    /// A ping came.
    Ping,
    /// The pong went out.
    Ponged,
    /// A frame of another kind came.
    Other,
    /// The connection ended.
    Ended,
    /// What a frame said was handed on.
    Delivered,
    /// Nobody takes what is handed on any more.
    Unheard,
    /// The pause is over.
    Rested,
}

/// What to do next on a stream.
#[derive(Debug)]
pub enum Next {
    Connect,
    Subscribe,
    Receive,
    Pong,
    Deliver(Vec<Wire>),
    /// Pause for that many seconds.
    Rest(u64),
    Stop,
}

/// The pause before a stream is opened again, in seconds.
pub const REST: u64 = 2;

/// Decides what to do next. A stream that ended or could not be opened is opened again after
/// a pause; it is given up only when nobody takes what it says.
pub fn next_on_stream(source: Source, subscribes: bool, happened: &Happened) -> (r: Next)
    ensures
        match *happened {
            Happened::Connected => r == (if subscribes {
                Next::Subscribe
            } else {
                Next::Receive
            }),
            Happened::Refused | Happened::Ended => r == Next::Rest(REST),
            Happened::Subscribed | Happened::Ponged | Happened::Other | Happened::Delivered => r
                == Next::Receive,
            Happened::Text(text) => r matches Next::Deliver(ws) && wire_views(ws@) == text_wires(
                source,
                parsed(text@),
            ),
            Happened::Ping => r == Next::Pong,
            Happened::Unheard => r == Next::Stop,
            Happened::Rested => r == Next::Connect,
        },
{
    match happened {
        Happened::Connected => if subscribes {
            Next::Subscribe
        } else {
            Next::Receive
        },
        Happened::Refused => Next::Rest(REST),
        Happened::Ended => Next::Rest(REST),
        Happened::Subscribed => Next::Receive,
        Happened::Ponged => Next::Receive,
        Happened::Other => Next::Receive,
        Happened::Delivered => Next::Receive,
        Happened::Text(text) => Next::Deliver(read_message(source, text.as_str())),
        Happened::Ping => Next::Pong,
        Happened::Unheard => Next::Stop,
        Happened::Rested => Next::Connect,
    }
}

// ---- laws ----

/// What is done on a stream: once connected it subscribes where it has to, and receives; a ping is
/// answered; a text is handed on as what it says; a stream that ended or was refused rests for two
/// seconds and connects again; and it stops only where nobody listens.
pub proof fn law_streams_are_kept_alive(
    source: Source,
    subscribes: bool,
    happened: Happened,
    r: Next,
    said: &str,
    ws: Vec<Wire>,
)
    requires
        call_ensures(next_on_stream, (source, subscribes, &happened), r),
        call_ensures(read_message, (source, said), ws),
    ensures
        r is Stop <==> happened is Unheard,
        r is Connect <==> happened is Rested,
        r is Pong <==> happened is Ping,
        r is Subscribe <==> happened is Connected && subscribes,
        r is Rest <==> happened is Refused || happened is Ended,
        r matches Next::Rest(s) ==> s == 2,
        r is Deliver <==> happened is Text,
        r is Receive <==> (happened is Connected && !subscribes) || happened is Subscribed
            || happened is Ponged || happened is Other || happened is Delivered,
        happened matches Happened::Text(text) ==> (text@ == said@ ==> (r matches Next::Deliver(x)
            && wire_views(x@) == wire_views(ws@))),
{
}

/// The Bybit subscription is for the first level of the order book of the coin's USDT perpetual.
pub proof fn law_bybit_is_asked_for_the_top_of_the_book(sym: &str, r: String)
    requires
        call_ensures(bybit_subscription, (sym,), r),
    ensures
        exists|v: JsonView| #[trigger]
            rendered(v) == r@ && v is Object && at_key(Some(v), "op"@) == Some(
                JsonView::Str("subscribe"@),
            ) && at_index(at_key(Some(v), "args"@), 0) == Some(
                JsonView::Str("orderbook.1."@ + sym@ + "USDT"@),
            ) && at_index(at_key(Some(v), "args"@), 1) is None,
{
    lemma_names_differ();
    let v = bybit_sub(sym@);
    assert(rendered(v) == r@);
}

proof fn lemma_names_differ()
    ensures
        "op"@ != "args"@ && "channel"@ != "instId"@ && "type"@ != "coin"@ && "method"@
            != "subscription"@,
{
    reveal_strlit("op");
    reveal_strlit("args");
    reveal_strlit("channel");
    reveal_strlit("instId");
    reveal_strlit("type");
    reveal_strlit("coin");
    reveal_strlit("method");
    reveal_strlit("subscription");
    assert("op"@.len() == 2 && "args"@.len() == 4 && "channel"@.len() == 7 && "instId"@.len() == 6
        && "method"@.len() == 6 && "subscription"@.len() == 12);
    assert("type"@[0] != "coin"@[0]);
}

/// The OKX subscription is for the best bid and ask of the coin's USDT swap.
pub proof fn law_okx_is_asked_for_the_best_bid_and_ask(sym: &str, r: String)
    requires
        call_ensures(okx_subscription, (sym,), r),
    ensures
        exists|v: JsonView| #[trigger]
            rendered(v) == r@ && v is Object && at_key(Some(v), "op"@) == Some(
                JsonView::Str("subscribe"@),
            ) && at_key(at_index(at_key(Some(v), "args"@), 0), "channel"@) == Some(
                JsonView::Str("bbo-tbt"@),
            ) && at_key(at_index(at_key(Some(v), "args"@), 0), "instId"@) == Some(
                JsonView::Str(sym@ + "-USDT-SWAP"@),
            ) && at_index(at_key(Some(v), "args"@), 1) is None,
{
    lemma_names_differ();
    let v = okx_sub(sym@);
    assert(rendered(v) == r@);
}

/// The chain's subscription is to the channel, of the coin.
pub proof fn law_the_chain_is_asked_for_a_channel(channel: &str, sym: &str, r: String)
    requires
        call_ensures(hl_subscription, (channel, sym), r),
    ensures
        exists|v: JsonView| #[trigger]
            rendered(v) == r@ && v is Object && at_key(Some(v), "method"@) == Some(
                JsonView::Str("subscribe"@),
            ) && at_key(at_key(Some(v), "subscription"@), "type"@) == Some(JsonView::Str(channel@))
                && at_key(at_key(Some(v), "subscription"@), "coin"@) == Some(JsonView::Str(sym@)),
{
    lemma_names_differ();
    let v = hl_sub(channel@, sym@);
    assert(rendered(v) == r@);
}

/// The streams of a coin: with the venues those of Binance, Bybit and OKX, each at its address and
/// with its own subscription, Binance's without; and the chain's, for its trades and for its best
/// bid and ask.
pub proof fn law_streams_are_of_the_venues_and_the_chain(
    sym: &str,
    cex: bool,
    r: Vec<Stream>,
    bybit: String,
    okx: String,
    trades_word: &str,
    bbo_word: &str,
    trades: String,
    bbo: String,
    n: int,
)
    requires
        call_ensures(streams, (sym, cex), r),
        call_ensures(bybit_subscription, (sym,), bybit),
        call_ensures(okx_subscription, (sym,), okx),
        trades_word@ == "trades"@,
        bbo_word@ == "bbo"@,
        call_ensures(hl_subscription, (trades_word, sym), trades),
        call_ensures(hl_subscription, (bbo_word, sym), bbo),
        n == if cex {
            3int
        } else {
            0
        },
    ensures
        r@.len() == n + 2,
        cex ==> {
            &&& r@[0]@.source == Source::Binance
            &&& r@[0]@.sub is None
            &&& r@[0]@.url == "wss://fstream.binance.com/ws/"@ + lowercase(sym@)
                + "usdt@bookTicker"@
            &&& r@[1]@.source == Source::Bybit
            &&& r@[1]@.sub == Some(bybit@)
            &&& r@[1]@.url == "wss://stream.bybit.com/v5/public/linear"@
            &&& r@[2]@.source == Source::Okx
            &&& r@[2]@.sub == Some(okx@)
            &&& r@[2]@.url == "wss://ws.okx.com:8443/ws/v5/public"@
        },
        r@[n]@.source == Source::Hl && r@[n + 1]@.source == Source::Hl,
        r@[n]@.url == "wss://api.hyperliquid.xyz/ws"@ && r@[n + 1]@.url
            == "wss://api.hyperliquid.xyz/ws"@,
        r@[n]@.sub == Some(trades@),
        r@[n + 1]@.sub == Some(bbo@),
{
    let vs = stream_views(r@);
    assert(vs.len() == r@.len());
    assert(forall|i: int| 0 <= i < r@.len() ==> vs[i] == (#[trigger] r@[i])@);
    if cex {
        assert(vs[0] == r@[0]@ && vs[1] == r@[1]@ && vs[2] == r@[2]@);
    }
    assert(vs[n] == r@[n]@ && vs[n + 1] == r@[n + 1]@);
}

/// The coin is the one that stands behind the first `--coin`, in upper case; Bitcoin where none
/// does.
pub proof fn law_the_coin_is_the_one_asked_for(args: Vec<String>, r: String, i: int)
    requires
        call_ensures(coin, (&args,), r),
        0 <= i <= args@.len(),
        forall|j: int| 0 <= j < i ==> (#[trigger] args@[j])@ != "--coin"@,
        i == args@.len() || args@[i]@ == "--coin"@,
    ensures
        i + 1 < args@.len() ==> r@ == uppercase(args@[i + 1]@),
        i + 1 >= args@.len() ==> r@ == uppercase("BTC"@),
{
    lemma_arg_value(args@, "--coin"@, "BTC"@, i);
}

/// The Binance stream is the book ticker of the coin's USDT perpetual, and needs no subscription.
pub proof fn law_binance_streams_the_book_ticker(lower: &str, r: Stream)
    requires
        call_ensures(binance_stream, (lower,), r),
    ensures
        r.url@ == "wss://fstream.binance.com/ws/"@ + lower@ + "usdt@bookTicker"@,
        r.sub is None,
        r.source == Source::Binance,
{
    assert(r@.url == r.url@ && r@.source == r.source && (r@.sub is None <==> r.sub is None));
}

} // verus!
