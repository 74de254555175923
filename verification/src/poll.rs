//! What to ask the endpoints for, and in which order.
use vstd::prelude::*;

use std::collections::VecDeque;

use crate::blocks::{bytes_in, hex, hex_in, read_reply, reply_of, rpc_result, Core, Evm};
use crate::board::Msg;
use crate::json::{
    at_index, at_key, contents, get, parsed_bytes, render, rendered, seen, str_in, string_array,
    u64_in, value_array, value_bool, value_insert, value_object, value_str, value_u64, Json,
    JsonView,
};
use crate::text::{decimal, hex_or_zero, hex_tag, law_tags_read_back, tag_of};
use crate::validators::Names;

verus! {

// ---- requests ----

/// A JSON string.
pub open spec fn json_str(s: Seq<char>) -> JsonView {
    JsonView::Str(s)
}

/// A JSON number.
pub open spec fn json_u64(n: u64) -> JsonView {
    JsonView::Number { unsigned: Some(n), text: decimal(n as nat) }
}

/// A request to the RPC endpoint.
pub open spec fn rpc_call(method: Seq<char>, params: JsonView) -> JsonView {
    JsonView::Object(
        Map::empty().insert("jsonrpc"@, json_str("2.0"@)).insert("id"@, json_u64(1)).insert(
            "method"@,
            json_str(method),
        ).insert("params"@, params),
    )
}

fn rpc_body(method: &str, params: serde_json::Value) -> (r: String)
    ensures
        r@ == rendered(rpc_call(method@, contents(params))),
{
    let mut v = value_object();
    value_insert(&mut v, "jsonrpc", value_str("2.0"));
    value_insert(&mut v, "id", value_u64(1));
    value_insert(&mut v, "method", value_str(method));
    value_insert(&mut v, "params", params);
    render(&v)
}

/// The request for the number of the newest EVM block.
pub fn evm_head_request() -> (r: String)
    ensures
        r@ == rendered(rpc_call("eth_blockNumber"@, JsonView::Array(Seq::empty()))),
{
    let none: Vec<serde_json::Value> = Vec::new();
    let params = value_array(none);
    assert(contents(params)->Array_0 =~= Seq::empty());
    rpc_body("eth_blockNumber", params)
}

/// The request for the height of the newest core block: a call of the precompile that gives
/// it.
pub fn core_head_request() -> (r: String)
    ensures
        r@ == rendered(
            rpc_call(
                "eth_call"@,
                JsonView::Array(
                    seq![
                        JsonView::Object(
                            Map::empty().insert(
                                "to"@,
                                json_str("0x0000000000000000000000000000000000000809"@),
                            ).insert("data"@, json_str("0x"@)),
                        ),
                        json_str("latest"@),
                    ],
                ),
            ),
        ),
{
    let mut call = value_object();
    value_insert(&mut call, "to", value_str("0x0000000000000000000000000000000000000809"));
    value_insert(&mut call, "data", value_str("0x"));
    let ghost c = contents(call);
    let mut a: Vec<serde_json::Value> = Vec::new();
    a.push(call);
    a.push(value_str("latest"));
    let params = value_array(a);
    assert(contents(params)->Array_0 =~= seq![c, json_str("latest"@)]);
    rpc_body("eth_call", params)
}

/// The request for an EVM block with its transactions.
pub fn evm_block_request(num: u64) -> (r: String)
    ensures
        r@ == rendered(
            rpc_call(
                "eth_getBlockByNumber"@,
                JsonView::Array(seq![json_str(tag_of(num)), JsonView::Bool(true)]),
            ),
        ),
{
    let tag = hex_tag(num);
    let mut a: Vec<serde_json::Value> = Vec::new();
    a.push(value_str(tag.as_str()));
    a.push(value_bool(true));
    let params = value_array(a);
    assert(contents(params)->Array_0 =~= seq![json_str(tag_of(num)), JsonView::Bool(true)]);
    rpc_body("eth_getBlockByNumber", params)
}

/// The request for the system transactions of an EVM block.
pub fn evm_system_request(num: u64) -> (r: String)
    ensures
        r@ == rendered(
            rpc_call(
                "eth_getSystemTxsByBlockNumber"@,
                JsonView::Array(seq![json_str(tag_of(num))]),
            ),
        ),
{
    let tag = hex_tag(num);
    rpc_body("eth_getSystemTxsByBlockNumber", string_array(tag.as_str()))
}

/// The request for the receipts of the transactions of an EVM block.
pub fn evm_receipts_request(num: u64) -> (r: String)
    ensures
        r@ == rendered(
            rpc_call("eth_getBlockReceipts"@, JsonView::Array(seq![json_str(tag_of(num))])),
        ),
{
    let tag = hex_tag(num);
    rpc_body("eth_getBlockReceipts", string_array(tag.as_str()))
}

/// The request for the details of a core block.
pub fn core_block_request(height: u64) -> (r: String)
    ensures
        r@ == rendered(
            JsonView::Object(
                Map::empty().insert("type"@, json_str("blockDetails"@)).insert(
                    "height"@,
                    json_u64(height),
                ),
            ),
        ),
{
    let mut v = value_object();
    value_insert(&mut v, "type", value_str("blockDetails"));
    value_insert(&mut v, "height", value_u64(height));
    render(&v)
}

/// The request for the validators.
pub fn validators_request() -> (r: String)
    ensures
        r@ == rendered(
            JsonView::Object(Map::empty().insert("type"@, json_str("validatorSummaries"@))),
        ),
{
    let mut v = value_object();
    value_insert(&mut v, "type", value_str("validatorSummaries"));
    render(&v)
}

/// The head that a reply gives: the number that its result writes in hexadecimal, zero where
/// it writes none; `None` where there is no result.
pub open spec fn head_in(reply: Option<JsonView>) -> Option<u64> {
    match rpc_result(reply) {
        Some(v) => Some(hex_in(Some(v))),
        None => None,
    }
}

/// The head that a reply gives.
pub fn head(reply: Option<&Json>) -> (r: Option<u64>)
    ensures
        r == head_in(seen(reply)),
{
    let result = get(reply, "result");
    if result.is_some() {
        Some(hex(result))
    } else {
        None
    }
}

/// The head that the bytes of a reply give.
pub fn read_head(reply: &Option<Vec<u8>>) -> (r: Option<u64>)
    ensures
        r == head_in(reply_of(bytes_in(*reply))),
{
    let j = read_reply(reply);
    head(j.as_ref())
}

// ---- which blocks to fetch ----

/// The blocks from `from` to `to`, both counted in; none where `from` is above `to`.
#[derive(Clone, Copy, Debug)]
pub struct Span {
    pub from: u64,
    pub to: u64,
}

impl Span {
    /// Whether a block is one of them.
    pub open spec fn covers(self, n: u64) -> bool {
        self.from <= n <= self.to
    }

    /// The blocks behind the first one, or the same where that is the last.
    pub open spec fn behind(self) -> Span {
        if self.from < self.to {
            Span { from: (self.from + 1) as u64, to: self.to }
        } else {
            self
        }
    }
}

/// How far polling has come.
#[derive(Debug)]
pub struct Poller {
    /// The last EVM head other than zero.
    pub last_evm: Option<u64>,
    /// Whether the EVM head was zero after that.
    pub anew: bool,
    /// The EVM blocks that were asked for and did not come.
    pub missing: VecDeque<u64>,
    /// How many of those in front are asked for again in this round.
    pub retry: usize,
    /// The newest core block that was seen, zero before the first.
    pub last_core: u64,
    /// The blocks that are due in this round, of which `todo.from` is the next.
    pub todo: Span,
}

/// How far polling has come, as a value.
pub struct Polling {
    pub last_evm: Option<u64>,
    pub anew: bool,
    pub missing: Seq<u64>,
    pub retry: nat,
    pub last_core: u64,
    pub todo: Span,
}

impl View for Poller {
    type V = Polling;

    open spec fn view(&self) -> Polling {
        Polling {
            last_evm: self.last_evm,
            anew: self.anew,
            missing: self.missing@,
            retry: self.retry as nat,
            last_core: self.last_core,
            todo: self.todo,
        }
    }
}

/// What came of the last thing asked for.
pub enum Polled {
    /// Nothing was asked for yet.
    Started,
    Validators(Names),
    /// The newest EVM block, where the endpoint said.
    EvmHead(Option<u64>),
    /// An EVM block, where there is one.
    Evm(Option<Evm>),
    /// The newest core block, zero where the endpoint said nothing.
    CoreHead(u64),
    /// A core block, where there is one.
    Core(Option<Core>),
    Rested,
}

/// What to ask for next.
#[derive(Clone, Copy, Debug, PartialEq, Eq, Structural)]
pub enum Ask {
    Validators,
    EvmHead,
    Evm(u64),
    CoreHead,
    Core(u64),
    /// Pause for that many milliseconds.
    Rest(u64),
}

/// The pause between two rounds, in milliseconds.
pub const PAUSE_MS: u64 = 700;

/// The EVM block that is handed on, where one came.
pub open spec fn hands_on(polled: Polled) -> Option<Evm> {
    match polled {
        Polled::Evm(b) => b,
        _ => None,
    }
}

/// Whether a message is the given trouble.
pub open spec fn is_trouble(m: Option<Msg>, text: Seq<char>) -> bool {
    m matches Some(Msg::Trouble(e)) && e@ == text
}

/// The most core blocks that are fetched at once.
pub const CORE_PER_TICK: u64 = 3;

/// The block after `n`. There is none after the largest number, which is its own.
pub open spec fn block_after(n: u64) -> u64 {
    if n == u64::MAX {
        n
    } else {
        (n + 1) as u64
    }
}

/// The first of the newest three blocks, with the newest at `head`.
pub open spec fn newest_three(head: u64) -> u64 {
    if head >= 2 {
        (head - 2) as u64
    } else {
        0
    }
}

/// The EVM blocks that are due with the newest at `head`: at first the newest three, later
/// everything after the head `last`. After a head of zero, which stands for a reply without a
/// number, it is the newest three again, and whatever came before them since `last`.
pub open spec fn evm_span_of(last: Option<u64>, anew: bool, head: u64) -> Span {
    Span {
        from: match last {
            Some(n) => if anew && newest_three(head) < block_after(n) {
                newest_three(head)
            } else {
                block_after(n)
            },
            None => newest_three(head),
        },
        to: head,
    }
}

/// The numbers that are not in a span, in order.
pub open spec fn outside(numbers: Seq<u64>, span: Span) -> Seq<u64>
    decreases numbers.len(),
{
    if numbers.len() == 0 {
        Seq::empty()
    } else if span.covers(numbers.last()) {
        outside(numbers.drop_last(), span)
    } else {
        outside(numbers.drop_last(), span).push(numbers.last())
    }
}

fn drop_covered(numbers: &VecDeque<u64>, span: Span) -> (r: VecDeque<u64>)
    ensures
        r@ == outside(numbers@, span),
{
    let mut r: VecDeque<u64> = VecDeque::new();
    assert(numbers@.take(0) =~= Seq::empty());
    for i in 0..numbers.len()
        invariant
            r@ == outside(numbers@.take(i as int), span),
    {
        assert(numbers@.take(i + 1).drop_last() =~= numbers@.take(i as int));
        let n: u64 = numbers[i];
        if !(span.from <= n && n <= span.to) {
            r.push_back(n);
        }
    }
    assert(numbers@.take(numbers@.len() as int) =~= numbers@);
    r
}

/// The core blocks to fetch with the newest at `head`: the newest `CORE_PER_TICK`, but
/// nothing up to `last` again.
pub open spec fn core_span_of(last: u64, head: u64) -> Span {
    Span {
        from: if last == 0 || block_after(last) < newest_three(head) {
            newest_three(head)
        } else {
            block_after(last)
        },
        to: head,
    }
}

impl Polling {
    /// Before anything was asked for.
    pub open spec fn fresh() -> Polling {
        Polling {
            last_evm: None,
            anew: false,
            missing: Seq::empty(),
            retry: 0,
            last_core: 0,
            todo: Span { from: 0, to: 0 },
        }
    }

    /// Whether a block that did not come is asked for again.
    pub open spec fn retrying(self) -> bool {
        self.retry > 0 && self.missing.len() > 0
    }

    /// The EVM block that is asked for: the first missing one, or the next that is due.
    pub open spec fn in_hand(self) -> u64 {
        if self.retrying() {
            self.missing[0]
        } else {
            self.todo.from
        }
    }

    /// The state after something came of the last thing asked for. An EVM block that does not
    /// come is noted as missing. The blocks that are missing are asked for again in every round
    /// that is told the EVM head, before those that are due; one that is due anyway is not
    /// asked for twice.
    pub open spec fn after(self, polled: Polled) -> Polling {
        match polled {
            Polled::EvmHead(Some(head)) => {
                let span = evm_span_of(self.last_evm, self.anew, head);
                let missing = outside(self.missing, span);
                Polling {
                    last_evm: if head == 0 {
                        self.last_evm
                    } else {
                        Some(head)
                    },
                    anew: head == 0,
                    missing,
                    retry: missing.len(),
                    todo: span,
                    ..self
                }
            },
            Polled::Evm(b) => if self.retrying() {
                Polling {
                    missing: if b is Some {
                        self.missing.skip(1)
                    } else {
                        self.missing.skip(1).push(self.missing[0])
                    },
                    retry: (self.retry - 1) as nat,
                    ..self
                }
            } else {
                Polling {
                    missing: if b is Some {
                        self.missing
                    } else {
                        self.missing.push(self.todo.from)
                    },
                    retry: 0,
                    todo: self.todo.behind(),
                    ..self
                }
            },
            Polled::CoreHead(head) => if head == 0 {
                self
            } else {
                Polling { last_core: head, todo: core_span_of(self.last_core, head), ..self }
            },
            Polled::Core(_) => Polling { todo: self.todo.behind(), ..self },
            _ => self,
        }
    }

    /// What is asked for next. A round asks for the EVM head, for each EVM block that is
    /// missing and each that is due up to the head; for the core head and for each core block
    /// that is due; and pauses.
    pub open spec fn asks(self, polled: Polled) -> Ask {
        let now = self.after(polled);
        match polled {
            Polled::Started => Ask::Validators,
            Polled::Validators(_) => Ask::EvmHead,
            Polled::EvmHead(Some(_)) => if now.retrying() || now.todo.from <= now.todo.to {
                Ask::Evm(now.in_hand())
            } else {
                Ask::CoreHead
            },
            Polled::EvmHead(None) => Ask::CoreHead,
            Polled::Evm(_) => if now.retrying() || (self.retrying() && self.todo.from
                <= self.todo.to) || (!self.retrying() && self.todo.from < self.todo.to) {
                Ask::Evm(now.in_hand())
            } else {
                Ask::CoreHead
            },
            Polled::CoreHead(head) => if head > 0 && now.todo.from <= now.todo.to {
                Ask::Core(now.todo.from)
            } else {
                Ask::Rest(PAUSE_MS)
            },
            Polled::Core(_) => if self.todo.from < self.todo.to {
                Ask::Core(now.todo.from)
            } else {
                Ask::Rest(PAUSE_MS)
            },
            Polled::Rested => Ask::EvmHead,
        }
    }
}

impl Poller {
    /// Nothing fetched yet, and nothing left to fetch behind what is in hand.
    pub fn new() -> (r: Poller)
        ensures
            r@ == Polling::fresh(),
    {
        Poller {
            last_evm: None,
            anew: false,
            missing: VecDeque::new(),
            retry: 0,
            last_core: 0,
            todo: Span { from: 0, to: 0 },
        }
    }

    /// The EVM blocks that are due now that the newest is at `head`.
    pub fn evm_span(&self, head: u64) -> (r: Span)
        ensures
            r == evm_span_of(self@.last_evm, self@.anew, head),
    {
        let three: u64 = head.saturating_sub(2);
        let from: u64 = match self.last_evm {
            Some(n) => {
                let next: u64 = n.saturating_add(1);
                if self.anew && three < next {
                    three
                } else {
                    next
                }
            },
            None => three,
        };
        Span { from, to: head }
    }

    /// The core blocks to fetch now that the newest is at `head`; `None` at a head of zero,
    /// which stands for no reply.
    pub fn core_span(&mut self, head: u64) -> (r: Option<Span>)
        ensures
            head == 0 ==> r is None && final(self)@ == old(self)@,
            head > 0 ==> r == Some(core_span_of(old(self)@.last_core, head)) && final(self)@ == (
            Polling { last_core: head, ..old(self)@ }),
    {
        if head == 0 {
            return None;
        }
        let start: u64 = head.saturating_sub(CORE_PER_TICK - 1);
        let from: u64 = if self.last_core == 0 {
            start
        } else {
            let after: u64 = self.last_core.saturating_add(1);
            if after < start {
                start
            } else {
                after
            }
        };
        self.last_core = head;
        Some(Span { from, to: head })
    }

    fn see_evm_head(&mut self, head: u64)
        ensures
            final(self)@ == old(self)@.after(Polled::EvmHead(Some(head))),
    {
        let span = self.evm_span(head);
        let missing = drop_covered(&self.missing, span);
        self.retry = missing.len();
        self.missing = missing;
        self.todo = span;
        self.anew = head == 0;
        if head > 0 {
            self.last_evm = Some(head);
        }
    }

    fn is_retrying(&self) -> (r: bool)
        ensures
            r == self@.retrying(),
    {
        self.retry > 0 && self.missing.len() > 0
    }

    fn block_in_hand(&self) -> (r: u64)
        ensures
            r == self@.in_hand(),
    {
        if self.is_retrying() {
            self.missing[0]
        } else {
            self.todo.from
        }
    }

    /// Notes whether the EVM block in hand came, and says whether another one is asked for.
    fn note_evm(&mut self, b: &Option<Evm>) -> (more: bool)
        ensures
            final(self)@ == old(self)@.after(Polled::Evm(*b)),
            more == (old(self)@.asks(Polled::Evm(*b)) is Evm),
    {
        if self.is_retrying() {
            self.retry -= 1;
            let ghost before = self.missing@;
            if let Some(n) = self.missing.pop_front() {
                assert(self.missing@ =~= before.skip(1));
                if b.is_none() {
                    self.missing.push_back(n);
                }
            }
            self.is_retrying() || self.todo.from <= self.todo.to
        } else {
            let more: bool = self.todo.from < self.todo.to;
            self.retry = 0;
            if b.is_none() {
                self.missing.push_back(self.todo.from);
            }
            if more {
                self.todo.from = self.todo.from + 1;
            }
            more
        }
    }

    /// Takes in what came of the last thing asked for, and gives the news to hand on and what
    /// to ask for next.
    pub fn step(&mut self, polled: Polled) -> (r: (Option<Msg>, Ask))
        ensures
            final(self)@ == old(self)@.after(polled),
            r.1 == old(self)@.asks(polled),
            hands_on(polled) == (match r.0 {
                Some(Msg::Evm(b)) => Some(b),
                _ => None,
            }),
            match polled {
                Polled::Validators(v) => r.0 == Some(Msg::Validators(v)),
                Polled::EvmHead(None) => is_trouble(r.0, "evm rpc unreachable"@),
                Polled::Evm(Some(b)) => r.0 == Some(Msg::Evm(b)),
                Polled::Core(Some(b)) => r.0 == Some(Msg::Core(b)),
                Polled::Core(None) => is_trouble(r.0, "core explorer unreachable"@),
                _ => r.0 is None,
            },
    {
        match polled {
            Polled::Started => (None, Ask::Validators),
            Polled::Validators(v) => (Some(Msg::Validators(v)), Ask::EvmHead),
            Polled::EvmHead(Some(head)) => {
                self.see_evm_head(head);
                if self.is_retrying() || self.todo.from <= self.todo.to {
                    (None, Ask::Evm(self.block_in_hand()))
                } else {
                    (None, Ask::CoreHead)
                }
            },
            Polled::EvmHead(None) => (
                Some(Msg::Trouble("evm rpc unreachable".to_owned())),
                Ask::CoreHead,
            ),
            Polled::Evm(b) => {
                let ask = if self.note_evm(&b) {
                    Ask::Evm(self.block_in_hand())
                } else {
                    Ask::CoreHead
                };
                match b {
                    Some(x) => (Some(Msg::Evm(x)), ask),
                    None => (None, ask),
                }
            },
            Polled::CoreHead(head) => match self.core_span(head) {
                Some(span) => {
                    self.todo = span;
                    if span.from <= span.to {
                        (None, Ask::Core(span.from))
                    } else {
                        (None, Ask::Rest(PAUSE_MS))
                    }
                },
                None => (None, Ask::Rest(PAUSE_MS)),
            },
            Polled::Core(b) => {
                let news = match b {
                    Some(x) => Some(Msg::Core(x)),
                    None => Some(Msg::Trouble("core explorer unreachable".to_owned())),
                };
                if self.todo.from < self.todo.to {
                    let n: u64 = self.todo.from + 1;
                    self.todo.from = n;
                    (news, Ask::Core(n))
                } else {
                    (news, Ask::Rest(PAUSE_MS))
                }
            },
            Polled::Rested => (None, Ask::EvmHead),
        }
    }
}

/// The blocks of a snapshot with the newest at `head`: the newest six.
pub fn snapshot_span(head: u64) -> (r: Span)
    ensures
        r.to == head,
        r.from == (if head >= 5 {
            head - 5
        } else {
            0
        }),
{
    Span { from: head.saturating_sub(5), to: head }
}

// ---- laws ----

/// Whether something can come of what was asked for. A block that comes is the one asked for.
pub open spec fn answers(ask: Ask, polled: Polled) -> bool {
    match (ask, polled) {
        (Ask::Validators, Polled::Validators(_)) => true,
        (Ask::EvmHead, Polled::EvmHead(_)) => true,
        (Ask::Evm(_), Polled::Evm(None)) => true,
        (Ask::Evm(n), Polled::Evm(Some(b))) => b.num == n,
        (Ask::CoreHead, Polled::CoreHead(_)) => true,
        (Ask::Core(_), Polled::Core(_)) => true,
        (Ask::Rest(_), Polled::Rested) => true,
        _ => false,
    }
}

/// The state after all of `run`, from the start.
pub open spec fn state_after(run: Seq<Polled>) -> Polling
    decreases run.len(),
{
    if run.len() == 0 {
        Polling::fresh()
    } else {
        state_after(run.drop_last()).after(run.last())
    }
}

/// What is asked for after all of `run`.
pub open spec fn ask_after(run: Seq<Polled>) -> Ask {
    state_after(run.drop_last()).asks(run.last())
}

/// Whether `run` is a run of polling from the start: each thing came of what was asked for
/// last.
pub open spec fn is_run(run: Seq<Polled>) -> bool
    decreases run.len(),
{
    if run.len() <= 1 {
        run.len() == 1 && run[0] is Started
    } else {
        is_run(run.drop_last()) && answers(ask_after(run.drop_last()), run.last())
    }
}

/// The EVM blocks that are handed on over a run, in order.
pub open spec fn handed_on(run: Seq<Polled>) -> Seq<Evm>
    decreases run.len(),
{
    if run.len() == 0 {
        Seq::empty()
    } else {
        match hands_on(run.last()) {
            Some(b) => handed_on(run.drop_last()).push(b),
            None => handed_on(run.drop_last()),
        }
    }
}

/// The first EVM block that is due in a run: that of the newest three at the first head other
/// than zero.
pub open spec fn origin(run: Seq<Polled>) -> Option<u64>
    decreases run.len(),
{
    if run.len() == 0 {
        None
    } else {
        match (origin(run.drop_last()), run.last()) {
            (None, Polled::EvmHead(Some(head))) => if head == 0 {
                None
            } else {
                Some(newest_three(head))
            },
            (o, _) => o,
        }
    }
}

/// The largest EVM head other than zero that is seen in a run.
pub open spec fn largest_head(run: Seq<Polled>) -> Option<u64>
    decreases run.len(),
{
    if run.len() == 0 {
        None
    } else {
        match (largest_head(run.drop_last()), run.last()) {
            (None, Polled::EvmHead(Some(head))) => if head == 0 {
                None
            } else {
                Some(head)
            },
            (Some(top), Polled::EvmHead(Some(head))) => if head > top {
                Some(head)
            } else {
                Some(top)
            },
            (top, _) => top,
        }
    }
}

/// Whether a block is handed on in a run.
pub open spec fn is_handed_on(run: Seq<Polled>, n: u64) -> bool {
    exists|k: int| 0 <= k < handed_on(run).len() && (#[trigger] handed_on(run)[k]).num == n
}

/// No number is lost when those in a span are dropped, but those in the span.
proof fn lemma_outside(numbers: Seq<u64>, span: Span, n: u64)
    requires
        numbers.contains(n),
    ensures
        span.covers(n) || outside(numbers, span).contains(n),
    decreases numbers.len(),
{
    let rest = numbers.drop_last();
    let kept = outside(rest, span);
    let all = outside(numbers, span);
    if numbers.last() == n {
        if !span.covers(n) {
            assert(all.last() == n);
        }
    } else {
        let i = choose|i: int| 0 <= i < numbers.len() && numbers[i] == n;
        assert(rest[i] == n);
        lemma_outside(rest, span, n);
        if kept.contains(n) {
            let j = choose|j: int| 0 <= j < kept.len() && kept[j] == n;
            assert(all[j] == n);
        }
    }
}

/// Every EVM block is fetched, none are skipped: at every point of a run, whatever the heads
/// and whatever comes, each block from the first one due up to the largest head has been
/// handed on, or is missing and will be asked for again, or is yet to be asked for in this
/// round. Whether a block ever comes is up to the endpoint.
pub proof fn law_no_evm_block_is_skipped(run: Seq<Polled>, n: u64)
    requires
        is_run(run),
        origin(run) is Some,
        origin(run)->0 <= n <= largest_head(run)->0,
    ensures
        is_handed_on(run, n) || state_after(run).missing.contains(n) || (ask_after(run) is Evm
            && state_after(run).todo.covers(n)),
{
    lemma_run(run);
    lemma_nothing_lost(run, n);
}

/// What holds at every point of a run.
proof fn lemma_run(run: Seq<Polled>)
    requires
        is_run(run),
    ensures
        ({
            let s = state_after(run);
            let ask = ask_after(run);
            &&& origin(run) is Some <==> largest_head(run) is Some
            &&& s.last_evm is Some <==> largest_head(run) is Some
            &&& s.last_evm is Some ==> s.last_evm->0 <= largest_head(run)->0
            &&& s.retry <= s.missing.len()
            &&& ask matches Ask::Evm(k) ==> k == s.in_hand() && (s.retrying() || s.todo.from
                <= s.todo.to)
            &&& !(ask is Evm) ==> s.retry == 0
        }),
    decreases run.len(),
{
    if run.len() > 1 {
        lemma_run(run.drop_last());
    } else {
        reveal_with_fuel(origin, 2);
        reveal_with_fuel(largest_head, 2);
        reveal_with_fuel(state_after, 2);
        assert(run.last() == run[0]);
    }
}

proof fn lemma_nothing_lost(run: Seq<Polled>, n: u64)
    requires
        is_run(run),
        origin(run) is Some,
        origin(run)->0 <= n <= largest_head(run)->0,
    ensures
        is_handed_on(run, n) || state_after(run).missing.contains(n) || (ask_after(run) is Evm
            && state_after(run).todo.covers(n)),
    decreases run.len(),
{
    lemma_run(run);
    if run.len() > 1 {
        let before = run.drop_last();
        let s = state_after(before);
        let now = state_after(run);
        lemma_run(before);
        if origin(before) is Some && n <= largest_head(before)->0 {
            lemma_nothing_lost(before, n);
            if is_handed_on(before, n) {
                let k = choose|k: int|
                    0 <= k < handed_on(before).len() && (#[trigger] handed_on(before)[k]).num == n;
                assert(handed_on(run)[k].num == n);
            } else if s.missing.contains(n) {
                let i = choose|i: int| 0 <= i < s.missing.len() && s.missing[i] == n;
                match run.last() {
                    Polled::EvmHead(Some(head)) => {
                        lemma_outside(s.missing, evm_span_of(s.last_evm, s.anew, head), n);
                    },
                    Polled::Evm(b) => {
                        if s.retrying() {
                            if i > 0 {
                                assert(now.missing[i - 1] == n);
                            } else if b is Some {
                                assert(handed_on(run).last().num == n);
                                assert(is_handed_on(run, n));
                            } else {
                                assert(now.missing.last() == n);
                            }
                        } else {
                            assert(now.missing[i] == n);
                        }
                    },
                    _ => {},
                }
            } else {
                match run.last() {
                    Polled::Evm(b) => {
                        if !s.retrying() && n == s.todo.from {
                            if b is Some {
                                assert(handed_on(run).last().num == n);
                                assert(is_handed_on(run, n));
                            } else {
                                assert(now.missing.last() == n);
                            }
                        }
                    },
                    _ => {},
                }
            }
        }
    } else {
        reveal_with_fuel(origin, 2);
        assert(run.last() == run[0]);
    }
}

/// Whether every EVM block that was asked for has come since the EVM head was told last.
pub open spec fn all_came(run: Seq<Polled>) -> bool
    decreases run.len(),
{
    run.len() > 0 && (run.last() matches Polled::EvmHead(Some(_)) || (all_came(run.drop_last())
        && run.last() != Polled::Evm(None)))
}

proof fn lemma_all_came(run: Seq<Polled>)
    requires
        is_run(run),
        all_came(run),
    ensures
        state_after(run).missing.len() == state_after(run).retry,
    decreases run.len(),
{
    lemma_run(run);
    if run.len() > 1 {
        lemma_run(run.drop_last());
        if all_came(run.drop_last()) {
            lemma_all_came(run.drop_last());
        }
    } else {
        assert(run.last() == run[0]);
        assert(!all_came(run.drop_last()));
    }
}

/// What was missed is made up for: when a round is over in which every EVM block that was
/// asked for came, each block from the first one due up to the largest head has been handed
/// on, however often some of them did not come before.
pub proof fn law_missing_evm_blocks_are_made_up_for(run: Seq<Polled>, n: u64)
    requires
        is_run(run),
        all_came(run),
        !(ask_after(run) is Evm),
        origin(run) is Some,
        origin(run)->0 <= n <= largest_head(run)->0,
    ensures
        state_after(run).missing.len() == 0,
        is_handed_on(run, n),
{
    lemma_run(run);
    lemma_all_came(run);
    lemma_nothing_lost(run, n);
}

/// Whether the EVM heads of a run do not fall back, and none is zero or the largest number,
/// which no block follows.
pub open spec fn rising_heads(run: Seq<Polled>) -> bool
    decreases run.len(),
{
    run.len() > 0 ==> rising_heads(run.drop_last()) && match run.last() {
        Polled::EvmHead(Some(head)) => 0 < head < u64::MAX && match largest_head(
            run.drop_last(),
        ) {
            Some(top) => top <= head,
            None => true,
        },
        _ => true,
    }
}

/// Whether every EVM block that is asked for in a run comes.
pub open spec fn all_come(run: Seq<Polled>) -> bool
    decreases run.len(),
{
    run.len() > 0 ==> all_come(run.drop_last()) && run.last() != Polled::Evm(None)
}

proof fn lemma_all_come(run: Seq<Polled>)
    requires
        is_run(run),
        rising_heads(run),
        all_come(run),
    ensures
        ({
            let s = state_after(run);
            let first = origin(run);
            let sent = handed_on(run);
            &&& s.missing.len() == 0
            &&& s.last_evm == largest_head(run)
            &&& !s.anew
            &&& first is None ==> sent.len() == 0
            &&& first is Some ==> first->0 <= largest_head(run)->0 < u64::MAX
            &&& first is Some && ask_after(run) is Evm ==> s.todo.to == largest_head(run)->0
                && s.todo.from == first->0 + sent.len()
            &&& first is Some && !(ask_after(run) is Evm) ==> largest_head(run)->0 + 1 == first->0
                + sent.len()
            &&& forall|k: int| 0 <= k < sent.len() ==> (#[trigger] sent[k]).num == first->0 + k
        }),
    decreases run.len(),
{
    lemma_run(run);
    if run.len() > 1 {
        let before = run.drop_last();
        lemma_run(before);
        lemma_all_come(before);
        let sent = handed_on(run);
        assert forall|k: int| 0 <= k < sent.len() implies (#[trigger] sent[k]).num == origin(run)->0
            + k by {
            if k < handed_on(before).len() {
                assert(sent[k] == handed_on(before)[k]);
            }
        }
    } else {
        reveal_with_fuel(origin, 2);
        reveal_with_fuel(largest_head, 2);
        reveal_with_fuel(handed_on, 2);
        reveal_with_fuel(state_after, 2);
        assert(run.last() == run[0]);
    }
}

/// Where the EVM heads do not fall back and every block that is asked for comes, a round ends
/// with all of them handed on: those from the first one due up to the largest head, each once,
/// ascending. A head that is not told loses and repeats none.
pub proof fn law_a_round_hands_on_every_evm_block(run: Seq<Polled>)
    requires
        is_run(run),
        rising_heads(run),
        all_come(run),
        largest_head(run) is Some,
        !(ask_after(run) is Evm),
    ensures
        origin(run) is Some,
        handed_on(run).map_values(|b: Evm| b.num as int) == Seq::new(
            (largest_head(run)->0 - origin(run)->0 + 1) as nat,
            |k: int| origin(run)->0 + k,
        ),
{
    lemma_run(run);
    lemma_all_come(run);
    assert(handed_on(run).map_values(|b: Evm| b.num as int) =~= Seq::new(
        (largest_head(run)->0 - origin(run)->0 + 1) as nat,
        |k: int| origin(run)->0 + k,
    ));
}

/// An EVM block that does not come holds up none: it is noted as missing, and what is asked
/// for next is the same as if it had come.
pub proof fn law_a_missing_evm_block_holds_up_none(p: Polling, b: Evm)
    requires
        p.retry <= p.missing.len(),
    ensures
        p.after(Polled::Evm(None)).missing.contains(p.in_hand()),
        p.asks(Polled::Evm(None)) == p.asks(Polled::Evm(Some(b))),
{
    let missing = p.after(Polled::Evm(None)).missing;
    assert(missing.last() == p.in_hand());
    assert(missing.contains(missing.last()));
}

/// A round that is told the EVM head asks for every missing block again: each that is not due
/// anyway is to be retried, and each that is due is among those to be asked for.
pub proof fn law_missing_evm_blocks_are_asked_for_again(p: Polling, head: u64, n: u64)
    requires
        p.missing.contains(n),
    ensures
        ({
            let now = p.after(Polled::EvmHead(Some(head)));
            &&& p.asks(Polled::EvmHead(Some(head))) == Ask::Evm(now.in_hand())
            &&& now.retry == now.missing.len()
            &&& now.missing.contains(n) || now.todo.covers(n)
        }),
{
    lemma_outside(p.missing, evm_span_of(p.last_evm, p.anew, head), n);
}

/// A tick fetches at most `CORE_PER_TICK` core blocks, the newest is the last of them, and
/// it fetches none that a tick up to the head `last` has fetched, unless that is the largest
/// number.
pub proof fn law_core_blocks_per_tick(last: u64, head: u64)
    ensures
        core_span_of(last, head).to == head,
        core_span_of(last, head).to - core_span_of(last, head).from < CORE_PER_TICK,
        0 < last < u64::MAX ==> last < core_span_of(last, head).from,
{
}

/// The state of a tick that saw the core head `head`, once `n` blocks have come of it.
pub open spec fn core_walk(p: Polling, head: u64, blocks: Seq<Option<Core>>, n: int) -> Polling
    decreases n,
{
    if n <= 0 {
        p.after(Polled::CoreHead(head))
    } else {
        core_walk(p, head, blocks, n - 1).after(Polled::Core(blocks[n - 1]))
    }
}

/// A tick asks for the core blocks that are due one by one, consecutive ones first to last,
/// whatever comes of each; then it pauses.
pub proof fn law_each_due_core_block_is_asked_for(
    p: Polling,
    head: u64,
    blocks: Seq<Option<Core>>,
    n: int,
)
    requires
        head > 0,
        core_span_of(p.last_core, head).from <= head,
        0 <= n <= head - core_span_of(p.last_core, head).from,
    ensures
        core_walk(p, head, blocks, n).todo == (Span {
            from: (core_span_of(p.last_core, head).from + n) as u64,
            to: head,
        }),
        n == 0 ==> p.asks(Polled::CoreHead(head)) == Ask::Core(
            core_span_of(p.last_core, head).from,
        ),
        n > 0 ==> core_walk(p, head, blocks, n - 1).asks(Polled::Core(blocks[n - 1])) == Ask::Core(
            (core_span_of(p.last_core, head).from + n) as u64,
        ),
        n == head - core_span_of(p.last_core, head).from ==> core_walk(p, head, blocks, n).asks(
            Polled::Core(blocks[n]),
        ) == Ask::Rest(PAUSE_MS),
    decreases n,
{
    if n > 0 {
        law_each_due_core_block_is_asked_for(p, head, blocks, n - 1);
    }
}

// ---- laws of requests ----

/// Whether a text is the request of the RPC endpoint that calls `method`: of version 2.0, with an
/// id, and with the parameters that `has` tells of.
pub open spec fn is_rpc(
    text: Seq<char>,
    method: Seq<char>,
    has: spec_fn(Option<JsonView>) -> bool,
) -> bool {
    exists|v: JsonView| #[trigger]
        rendered(v) == text && v is Object && v->Object_0.dom() == set![
            "jsonrpc"@,
            "id"@,
            "method"@,
            "params"@,
        ] && str_in(at_key(Some(v), "jsonrpc"@)) == Some("2.0"@) && u64_in(
            at_key(Some(v), "id"@),
        ) == Some(1u64) && str_in(at_key(Some(v), "method"@)) == Some(method) && has(
            at_key(Some(v), "params"@),
        )
}

proof fn lemma_rpc(text: Seq<char>, method: Seq<char>, params: JsonView)
    requires
        text == rendered(rpc_call(method, params)),
    ensures
        forall|has: spec_fn(Option<JsonView>) -> bool|
            has(Some(params)) ==> #[trigger] is_rpc(text, method, has),
{
    lemma_member_names();
    let v = rpc_call(method, params);
    assert forall|has: spec_fn(Option<JsonView>) -> bool| has(Some(params)) implies #[trigger] is_rpc(
        text,
        method,
        has,
    ) by {
        assert(rendered(v) == text);
        assert(v->Object_0.dom() =~= set!["jsonrpc"@, "id"@, "method"@, "params"@]);
        assert(str_in(at_key(Some(v), "jsonrpc"@)) == Some("2.0"@));
        assert(u64_in(at_key(Some(v), "id"@)) == Some(1u64));
        assert(str_in(at_key(Some(v), "method"@)) == Some(method));
        assert(at_key(Some(v), "params"@) == Some(params));
    }
}

proof fn lemma_member_names()
    ensures
        "jsonrpc"@ != "id"@ && "jsonrpc"@ != "method"@ && "jsonrpc"@ != "params"@,
        "id"@ != "method"@ && "id"@ != "params"@ && "method"@ != "params"@,
        "to"@ != "data"@ && "type"@ != "height"@,
{
    reveal_strlit("jsonrpc");
    reveal_strlit("id");
    reveal_strlit("method");
    reveal_strlit("params");
    reveal_strlit("to");
    reveal_strlit("data");
    reveal_strlit("type");
    reveal_strlit("height");
    assert("jsonrpc"@.len() == 7 && "id"@.len() == 2 && "method"@.len() == 6 && "params"@.len() == 6
        && "to"@.len() == 2 && "data"@.len() == 4 && "type"@.len() == 4 && "height"@.len() == 6);
    assert("method"@[0] != "params"@[0]);
}

/// The heads are asked for: that of the EVM by its block number, that of the core by a call of
/// the precompile at address 0x809, at the latest block.
pub proof fn law_heads_are_asked_for(evm: String, core: String)
    requires
        call_ensures(evm_head_request, (), evm),
        call_ensures(core_head_request, (), core),
    ensures
        is_rpc(
            evm@,
            "eth_blockNumber"@,
            |p: Option<JsonView>| p matches Some(JsonView::Array(a)) && a.len() == 0,
        ),
        is_rpc(
            core@,
            "eth_call"@,
            |p: Option<JsonView>|
                str_in(at_key(at_index(p, 0), "to"@)) == Some(
                    "0x0000000000000000000000000000000000000809"@,
                ) && str_in(at_key(at_index(p, 0), "data"@)) == Some("0x"@) && str_in(
                    at_index(p, 1),
                ) == Some("latest"@) && at_index(p, 2) is None,
        ),
{
    lemma_member_names();
    lemma_rpc(evm@, "eth_blockNumber"@, JsonView::Array(Seq::empty()));
    let call = JsonView::Object(
        Map::empty().insert("to"@, json_str("0x0000000000000000000000000000000000000809"@)).insert(
            "data"@,
            json_str("0x"@),
        ),
    );
    lemma_rpc(core@, "eth_call"@, JsonView::Array(seq![call, json_str("latest"@)]));
}

/// An EVM block is asked for by its number in hexadecimal: the block with its transactions in
/// full, its system transactions, and its receipts.
pub proof fn law_evm_blocks_are_asked_for_by_number(
    num: u64,
    block: String,
    system: String,
    receipts: String,
)
    requires
        call_ensures(evm_block_request, (num,), block),
        call_ensures(evm_system_request, (num,), system),
        call_ensures(evm_receipts_request, (num,), receipts),
    ensures
        is_rpc(
            block@,
            "eth_getBlockByNumber"@,
            |p: Option<JsonView>|
                str_in(at_index(p, 0)) == Some(tag_of(num)) && at_index(p, 1) == Some(
                    JsonView::Bool(true),
                ) && at_index(p, 2) is None,
        ),
        is_rpc(
            system@,
            "eth_getSystemTxsByBlockNumber"@,
            |p: Option<JsonView>|
                str_in(at_index(p, 0)) == Some(tag_of(num)) && at_index(p, 1) is None,
        ),
        is_rpc(
            receipts@,
            "eth_getBlockReceipts"@,
            |p: Option<JsonView>|
                str_in(at_index(p, 0)) == Some(tag_of(num)) && at_index(p, 1) is None,
        ),
        hex_or_zero(tag_of(num)) == num,
{
    law_tags_read_back(num);
    lemma_rpc(
        block@,
        "eth_getBlockByNumber"@,
        JsonView::Array(seq![json_str(tag_of(num)), JsonView::Bool(true)]),
    );
    lemma_rpc(
        system@,
        "eth_getSystemTxsByBlockNumber"@,
        JsonView::Array(seq![json_str(tag_of(num))]),
    );
    lemma_rpc(
        receipts@,
        "eth_getBlockReceipts"@,
        JsonView::Array(seq![json_str(tag_of(num))]),
    );
}

/// A core block is asked for by its height, and the validators by their summaries.
pub proof fn law_core_blocks_are_asked_for_by_height(height: u64, block: String, validators: String)
    requires
        call_ensures(core_block_request, (height,), block),
        call_ensures(validators_request, (), validators),
    ensures
        exists|v: JsonView| #[trigger]
            rendered(v) == block@ && v is Object && v->Object_0.dom() == set!["type"@, "height"@]
                && str_in(at_key(Some(v), "type"@)) == Some("blockDetails"@)
                && u64_in(at_key(Some(v), "height"@)) == Some(height),
        exists|v: JsonView| #[trigger]
            rendered(v) == validators@ && v is Object && v->Object_0.dom() == set!["type"@]
                && str_in(at_key(Some(v), "type"@)) == Some(
                "validatorSummaries"@,
            ),
{
    lemma_member_names();
    let v = JsonView::Object(
        Map::empty().insert("type"@, json_str("blockDetails"@)).insert("height"@, json_u64(height)),
    );
    assert(rendered(v) == block@);
    assert(v->Object_0.dom() =~= set!["type"@, "height"@]);
    let w = JsonView::Object(Map::empty().insert("type"@, json_str("validatorSummaries"@)));
    assert(rendered(w) == validators@);
    assert(w->Object_0.dom() =~= set!["type"@]);
}

/// The head is the number in the reply's result; zero where the result is no such number; and not
/// told where there is no result.
pub proof fn law_heads_are_read_from_the_result(reply: Option<&Json>, r: Option<u64>, n: u64)
    requires
        call_ensures(head, (reply,), r),
    ensures
        at_key(seen(reply), "result"@) is None ==> r is None,
        str_in(at_key(seen(reply), "result"@)) == Some(tag_of(n)) ==> r == Some(n),
        at_key(seen(reply), "result"@) is Some && str_in(at_key(seen(reply), "result"@)) is None
            ==> r == Some(0u64),
        str_in(at_key(seen(reply), "result"@)) matches Some(s) ==> r == Some(hex_or_zero(s)),
{
    law_tags_read_back(n);
}

/// The head is read from the bytes of a reply as from the JSON that they are.
pub proof fn law_heads_are_read_from_their_bytes(bytes: Vec<u8>, r: Option<u64>, n: u64)
    requires
        call_ensures(read_head, (&Some(bytes),), r),
    ensures
        at_key(parsed_bytes(bytes@), "result"@) is None ==> r is None,
        str_in(at_key(parsed_bytes(bytes@), "result"@)) == Some(tag_of(n)) ==> r == Some(n),
{
    law_tags_read_back(n);
}

// ---- laws of spans ----

/// The EVM blocks that are due: at first the newest three, or all there are; later every block
/// after the last head, up to this one. After a head of zero it is no fewer than either.
pub proof fn law_evm_blocks_are_due_from_the_last_head(p: Poller, head: u64, r: Span, n: u64)
    requires
        call_ensures(Poller::evm_span, (&p, head), r),
    ensures
        r.to == head,
        p.last_evm is None && head >= 2 ==> r.from == head - 2,
        p.last_evm is None && head < 2 ==> r.from == 0,
        p.last_evm matches Some(last) ==> (!p.anew && last < u64::MAX ==> r.from == last + 1),
        p.last_evm matches Some(last) && p.anew && last < n <= head ==> r.from <= n <= r.to,
        p.last_evm is Some && p.anew && head - 2 <= n <= head ==> r.from <= n <= r.to,
{
}

/// The core blocks that are due: the newest three, but none that was due before, as they come in
/// order; none at a head of zero, which stands for no reply.
pub proof fn law_the_newest_three_core_blocks_are_due(
    p: &mut Poller,
    head: u64,
    r: Option<Span>,
    n: u64,
)
    requires
        call_ensures(Poller::core_span, (p, head), r),
        old(p).last_core < u64::MAX,
    ensures
        r is None <==> head == 0,
        r matches Some(s) ==> s.to == head && final(p).last_core == head && (s.from <= n <= s.to
            <==> n <= head && head - n < 3 && (n > old(p).last_core || old(p).last_core == 0)),
        r is None ==> final(p).last_core == old(p).last_core,
        final(p).last_evm == old(p).last_evm,
        final(p).missing@ == old(p).missing@,
{
    assert(final(p)@.last_evm == old(p)@.last_evm);
    assert(final(p)@.missing == old(p)@.missing);
    assert(final(p)@.last_core == final(p).last_core);
}

/// A snapshot is of the newest six blocks, or of all there are.
pub proof fn law_snapshots_are_of_six_blocks(head: u64, r: Span, n: u64)
    requires
        call_ensures(snapshot_span, (head,), r),
    ensures
        r.from <= n <= r.to <==> n <= head && head - n < 6,
{
}

/// What is handed on and asked for at each turn. Polling starts with the validators and goes on
/// in rounds: the EVM head, the core head once no EVM block is asked for, and a pause of seven
/// hundred milliseconds once no core block is. What comes is handed on as it is; a head of the
/// EVM or a core block that does not come is trouble, and an EVM block that does not is not.
pub proof fn law_a_round_goes_from_head_to_head(
    p: &mut Poller,
    polled: Polled,
    news: Option<Msg>,
    ask: Ask,
)
    requires
        call_ensures(Poller::step, (p, polled), (news, ask)),
    ensures
        polled is Started ==> news is None && ask == Ask::Validators,
        polled matches Polled::Validators(v) ==> news == Some(Msg::Validators(v)) && ask
            == Ask::EvmHead,
        polled is Rested ==> news is None && ask == Ask::EvmHead,
        polled matches Polled::EvmHead(None) ==> ask == Ask::CoreHead && (news matches Some(
            Msg::Trouble(e),
        ) && e@ == "evm rpc unreachable"@),
        polled matches Polled::EvmHead(Some(_)) ==> news is None && (ask is Evm || ask
            == Ask::CoreHead),
        polled matches Polled::Evm(b) ==> (match b {
            Some(x) => news == Some(Msg::Evm(x)),
            None => news is None,
        }) && (ask is Evm || ask == Ask::CoreHead),
        polled matches Polled::CoreHead(head) ==> news is None && (ask is Core || ask == Ask::Rest(
            700,
        )) && (head == 0 ==> ask == Ask::Rest(700)),
        polled matches Polled::Core(b) ==> (ask is Core || ask == Ask::Rest(700)) && (match b {
            Some(x) => news == Some(Msg::Core(x)),
            None => news matches Some(Msg::Trouble(e)) && e@ == "core explorer unreachable"@,
        }),
{
}

/// A head brings the request for the first block that is due or missing: at the start, the first
/// of the newest three; later, with none missing, the one after the last head, and none where
/// the head has not moved or has fallen back.
pub proof fn law_a_head_asks_for_what_is_due(
    p: &mut Poller,
    head: u64,
    news: Option<Msg>,
    ask: Ask,
)
    requires
        call_ensures(Poller::step, (p, Polled::EvmHead(Some(head))), (news, ask)),
        old(p).missing@.len() == 0,
        !old(p).anew,
    ensures
        old(p).last_evm is None && head >= 2 ==> ask == Ask::Evm((head - 2) as u64),
        old(p).last_evm is None && head < 2 ==> ask == Ask::Evm(0),
        old(p).last_evm matches Some(last) ==> (last < head ==> ask == Ask::Evm((last + 1) as u64)),
        old(p).last_evm matches Some(last) ==> (last > head || (last == head && head < u64::MAX)
            ==> ask == Ask::CoreHead),
        head > 0 ==> final(p).last_evm == Some(head),
{
    let s = old(p)@;
    assert(outside(s.missing, evm_span_of(s.last_evm, s.anew, head)) =~= Seq::empty());
    assert(final(p)@.last_evm == final(p).last_evm);
}

/// Polling starts with no head seen and no block missing.
pub proof fn law_polling_starts_from_nothing(p: Poller)
    requires
        call_ensures(Poller::new, (), p),
    ensures
        p.last_evm is None && p.last_core == 0 && p.missing@.len() == 0 && !p.anew && p.retry == 0,
{
    assert(p@.last_evm == p.last_evm && p@.last_core == p.last_core && p@.missing == p.missing@
        && p@.anew == p.anew && p@.retry == p.retry);
}

} // verus!
