//! Blocks of the two chains, as their endpoints describe them.
use vstd::prelude::*;
use vstd::utf8::*;

use crate::json::{
    array_in, as_array, as_str, as_u64, at_key, get, is_present, items, parsed_bytes, read_bytes,
    seen, str_in, u64_in, Json, JsonView,
};
use crate::rolling::total_of;
use crate::text::{
    ascii_lower, eq_ignore_case, hex_number, hex_or_zero, law_tags_read_back, lemma_six_digits,
    lowercase, read_hex, read_hex_or_zero, same, same_ignoring_case, tag_of, to_lower,
};

verus! {

// ---- numbers in hexadecimal ----

/// The number that a JSON string writes in hexadecimal; zero where it writes none.
pub open spec fn hex_in(o: Option<JsonView>) -> u64 {
    match str_in(o) {
        Some(s) => hex_or_zero(s),
        None => 0,
    }
}

/// Reads a number that is written in hexadecimal, zero where there is none.
pub fn hex(o: Option<&Json>) -> (r: u64)
    ensures
        r == hex_in(seen(o)),
{
    match as_str(o) {
        Some(s) => read_hex_or_zero(s),
        None => 0,
    }
}

/// What a reply of an endpoint holds; `None` where there is no reply or it is no JSON.
pub open spec fn reply_of(bytes: Option<Seq<u8>>) -> Option<JsonView> {
    match bytes {
        Some(b) => parsed_bytes(b),
        None => None,
    }
}

/// The bytes of an optional reply.
pub open spec fn bytes_in(reply: Option<Vec<u8>>) -> Option<Seq<u8>> {
    match reply {
        Some(b) => Some(b@),
        None => None,
    }
}

/// Reads the reply of an endpoint.
pub fn read_reply(reply: &Option<Vec<u8>>) -> (r: Option<Json>)
    ensures
        match r {
            Some(j) => reply_of(bytes_in(*reply)) == Some(j@),
            None => reply_of(bytes_in(*reply)) is None,
        },
{
    match reply {
        Some(b) => read_bytes(b.as_slice()),
        None => None,
    }
}

// ---- CoreWriter ----

/// The number of CoreWriter action slots.
pub const SLOTS: usize = 6;

/// The address of CoreWriter.
pub fn core_writer() -> (r: &'static str)
    ensures
        r@ == "0x3333333333333333333333333333333333333333"@,
{
    "0x3333333333333333333333333333333333333333"
}

/// The name of a CoreWriter action slot.
pub open spec fn slot_name(slot: int) -> Seq<char> {
    if slot == 0 {
        "limit"@
    } else if slot == 1 {
        "cancel"@
    } else if slot == 2 {
        "spotSend"@
    } else if slot == 3 {
        "usdClass"@
    } else if slot == 4 {
        "sendAsset"@
    } else {
        "other"@
    }
}

/// The name of a CoreWriter action slot.
pub fn cw_name(slot: usize) -> (r: &'static str)
    ensures
        r@ == slot_name(slot as int),
{
    if slot == 0 {
        "limit"
    } else if slot == 1 {
        "cancel"
    } else if slot == 2 {
        "spotSend"
    } else if slot == 3 {
        "usdClass"
    } else if slot == 4 {
        "sendAsset"
    } else {
        "other"
    }
}

/// The bytes of a text as characters of the same codes.
pub open spec fn as_chars(bytes: Seq<u8>) -> Seq<char> {
    bytes.map_values(|b: u8| b as char)
}

/// The action id of a `sendRawAction(bytes)` call, in hexadecimal behind `0x`: selector (4
/// bytes), offset (32), length (32), version (1), action id (3). Zero where the call is too
/// short or the id is no numeral.
pub open spec fn action_id(input: Seq<char>) -> nat {
    let bytes = vstd::utf8::encode_utf8(input);
    if bytes.len() >= 146 {
        match hex_number(as_chars(bytes.subrange(140, 146)), u32::MAX as nat) {
            Some(id) => id,
            None => 0,
        }
    } else {
        0
    }
}

/// The slot of a CoreWriter action id.
pub open spec fn slot_of_id(id: nat) -> int {
    if id == 1 {
        0
    } else if id == 10 || id == 11 {
        1
    } else if id == 6 {
        2
    } else if id == 7 {
        3
    } else if id == 13 {
        4
    } else {
        5
    }
}

/// The slot of the CoreWriter action that a call makes.
pub fn cw_slot(input: &str) -> (r: usize)
    ensures
        r == slot_of_id(action_id(input@)),
        r < SLOTS,
{
    let bytes = input.as_bytes();
    let mut id: u64 = 0;
    if bytes.len() >= 146 {
        let mut cs: Vec<char> = Vec::new();
        for i in 140..146usize
            invariant
                bytes@.len() >= 146,
                cs@.len() == i - 140,
                forall|j: int| 0 <= j < i - 140 ==> #[trigger] cs@[j] == bytes@[140 + j] as char,
        {
            cs.push(bytes[i] as char);
        }
        let ghost part = as_chars(bytes@.subrange(140, 146));
        assert(cs@.skip(0) =~= part);
        proof {
            lemma_six_digits(part);
        }
        if let Some(v) = read_hex(&cs, 0) {
            id = v;
        }
    }
    if id == 1 {
        0
    } else if id == 10 || id == 11 {
        1
    } else if id == 6 {
        2
    } else if id == 7 {
        3
    } else if id == 13 {
        4
    } else {
        5
    }
}

// ---- HyperEVM ----

/// A block of the EVM chain.
#[derive(Debug)]
pub struct Evm {
    pub num: u64,
    pub ts: u64,
    pub big: bool,
    pub gas_used: u64,
    pub gas_limit: u64,
    pub base_fee: u64,
    pub txs: usize,
    /// Calls of CoreWriter by action slot.
    pub cw: [usize; 6],
    pub sys: usize,
    pub reverted: usize,
}

/// The gas limit above which a block is a big one.
pub const BIG_GAS: u64 = 10_000_000;

/// The CoreWriter slot that a transaction calls, where it calls CoreWriter.
pub open spec fn tx_slot(tx: JsonView) -> Option<int> {
    match str_in(at_key(Some(tx), "to"@)) {
        Some(to) => if same_ignoring_case(to, "0x3333333333333333333333333333333333333333"@) {
            let input = match str_in(at_key(Some(tx), "input"@)) {
                Some(s) => s,
                None => ""@,
            };
            Some(slot_of_id(action_id(input)))
        } else {
            None
        },
        None => None,
    }
}

/// How many of the transactions call CoreWriter with an action of the slot.
pub open spec fn slot_count(txs: Seq<JsonView>, slot: int) -> nat
    decreases txs.len(),
{
    if txs.len() == 0 {
        0
    } else {
        slot_count(txs.drop_last(), slot) + if tx_slot(txs.last()) == Some(slot) {
            1nat
        } else {
            0nat
        }
    }
}

/// How many of the receipts are of transactions that were reverted: those of status zero,
/// or of no status.
pub open spec fn reverted_count(receipts: Seq<JsonView>) -> nat
    decreases receipts.len(),
{
    if receipts.len() == 0 {
        0
    } else {
        reverted_count(receipts.drop_last()) + if hex_in(
            at_key(Some(receipts.last()), "status"@),
        ) == 0 {
            1nat
        } else {
            0nat
        }
    }
}

/// The result that a reply of the RPC endpoint holds.
pub open spec fn rpc_result(reply: Option<JsonView>) -> Option<JsonView> {
    at_key(reply, "result"@)
}

/// The transactions that the reply to a request for a block lists.
pub open spec fn listed_txs(reply: Option<JsonView>) -> Option<Seq<JsonView>> {
    array_in(at_key(rpc_result(reply), "transactions"@))
}

/// Whether the replies describe the block `num` as `b`: `block` gives its header and
/// transactions, `sys` its system transactions, `receipts` the receipts of its transactions.
/// Where one of the latter two is missing, it counts as empty.
pub open spec fn describes_evm(
    b: Evm,
    num: u64,
    block: Option<JsonView>,
    sys: Option<JsonView>,
    receipts: Option<JsonView>,
) -> bool {
    let h = rpc_result(block);
    let txs = listed_txs(block).unwrap();
    &&& b.num == num
    &&& b.ts == hex_in(at_key(h, "timestamp"@))
    &&& b.gas_limit == hex_in(at_key(h, "gasLimit"@))
    &&& b.big == (b.gas_limit > BIG_GAS)
    &&& b.gas_used == hex_in(at_key(h, "gasUsed"@))
    &&& b.base_fee == hex_in(at_key(h, "baseFeePerGas"@))
    &&& b.txs == txs.len()
    &&& forall|k: int| 0 <= k < 6 ==> #[trigger] b.cw@[k] == slot_count(txs, k)
    &&& b.sys == (match array_in(rpc_result(sys)) {
        Some(s) => s.len(),
        None => 0,
    })
    &&& b.reverted == (match array_in(rpc_result(receipts)) {
        Some(r) => reverted_count(r),
        None => 0,
    })
}

fn slot_of_tx(tx: &Json) -> (r: Option<usize>)
    ensures
        match r {
            Some(k) => tx_slot(tx@) == Some(k as int) && k < 6,
            None => tx_slot(tx@) is None,
        },
{
    match as_str(get(Some(tx), "to")) {
        Some(to) => if eq_ignore_case(to, core_writer()) {
            let input = match as_str(get(Some(tx), "input")) {
                Some(s) => s,
                None => "",
            };
            Some(cw_slot(input))
        } else {
            None
        },
        None => None,
    }
}

fn count_slots(txs: &Vec<Json>) -> (r: [usize; 6])
    ensures
        forall|k: int| 0 <= k < 6 ==> #[trigger] r@[k] == slot_count(items(txs@), k),
{
    let mut cw: [usize; 6] = [0, 0, 0, 0, 0, 0];
    let ghost ts = items(txs@);
    assert(ts.take(0) =~= Seq::empty());
    for i in 0..txs.len()
        invariant
            ts == items(txs@),
            forall|k: int| 0 <= k < 6 ==> #[trigger] cw@[k] == slot_count(ts.take(i as int), k),
            forall|k: int| 0 <= k < 6 ==> #[trigger] cw@[k] <= i,
    {
        assert(ts.take(i + 1).drop_last() =~= ts.take(i as int));
        assert(ts.take(i + 1).last() == txs@[i as int]@);
        if let Some(k) = slot_of_tx(&txs[i]) {
            let n: usize = cw[k] + 1;
            cw[k] = n;
        }
    }
    assert(ts.take(txs@.len() as int) =~= ts);
    cw
}

fn count_reverted(receipts: &Vec<Json>) -> (r: usize)
    ensures
        r == reverted_count(items(receipts@)),
{
    let mut n: usize = 0;
    let ghost rs = items(receipts@);
    assert(rs.take(0) =~= Seq::empty());
    for i in 0..receipts.len()
        invariant
            rs == items(receipts@),
            n == reverted_count(rs.take(i as int)),
            n <= i,
    {
        assert(rs.take(i + 1).drop_last() =~= rs.take(i as int));
        assert(rs.take(i + 1).last() == receipts@[i as int]@);
        if hex(get(Some(&receipts[i]), "status")) == 0 {
            n += 1;
        }
    }
    assert(rs.take(receipts@.len() as int) =~= rs);
    n
}

/// Whether the reply to a request for a block lists its transactions.
pub fn lists_transactions(block: Option<&Json>) -> (r: bool)
    ensures
        r == listed_txs(seen(block)) is Some,
{
    as_array(get(get(block, "result"), "transactions")).is_some()
}

/// Assembles a block of the EVM chain from the replies of the RPC endpoint. There is no block
/// where the first reply lists no transactions.
pub fn evm_block(
    num: u64,
    block: Option<&Json>,
    sys: Option<&Json>,
    receipts: Option<&Json>,
) -> (r: Option<Evm>)
    ensures
        r is Some <==> listed_txs(seen(block)) is Some,
        r matches Some(b) ==> describes_evm(b, num, seen(block), seen(sys), seen(receipts)),
{
    let h = get(block, "result");
    let txs = match as_array(get(h, "transactions")) {
        Some(t) => t,
        None => return None,
    };
    let cw = count_slots(txs);
    let sys_count: usize = match as_array(get(sys, "result")) {
        Some(s) => s.len(),
        None => 0,
    };
    let reverted: usize = match as_array(get(receipts, "result")) {
        Some(rs) => count_reverted(rs),
        None => 0,
    };
    let gas_limit = hex(get(h, "gasLimit"));
    Some(
        Evm {
            num,
            ts: hex(get(h, "timestamp")),
            big: gas_limit > BIG_GAS,
            gas_used: hex(get(h, "gasUsed")),
            gas_limit,
            base_fee: hex(get(h, "baseFeePerGas")),
            txs: txs.len(),
            cw,
            sys: sys_count,
            reverted,
        },
    )
}

/// Assembles a block of the EVM chain from the bytes of the replies.
pub fn read_evm(
    num: u64,
    block: &Option<Vec<u8>>,
    sys: &Option<Vec<u8>>,
    receipts: &Option<Vec<u8>>,
) -> (r: Option<Evm>)
    ensures
        r is Some <==> listed_txs(reply_of(bytes_in(*block))) is Some,
        r matches Some(b) ==> describes_evm(
            b,
            num,
            reply_of(bytes_in(*block)),
            reply_of(bytes_in(*sys)),
            reply_of(bytes_in(*receipts)),
        ),
{
    let b = read_reply(block);
    let s = read_reply(sys);
    let rs = read_reply(receipts);
    evm_block(num, b.as_ref(), s.as_ref(), rs.as_ref())
}

// ---- HyperCore ----

/// A block of the core chain.
#[derive(Debug)]
pub struct Core {
    pub height: u64,
    pub ms: u64,
    pub txs: u64,
    pub orders: usize,
    pub alo: usize,
    pub gtc: usize,
    pub ioc: usize,
    pub cancels: usize,
    pub evm_raw: usize,
    pub errs: usize,
    pub proposer: String,
}

/// One thing that a transaction does: an order, by its time in force; a cancel; or a raw EVM
/// transaction.
#[derive(Clone, Copy, Debug, PartialEq, Eq, Structural)]
pub enum Act {
    Alo,
    Gtc,
    Ioc,
    OtherOrder,
    Cancel,
    EvmRaw,
}

/// The act of placing an order.
pub open spec fn order_act(order: JsonView) -> Act {
    let tif = str_in(at_key(at_key(at_key(Some(order), "t"@), "limit"@), "tif"@));
    if tif == Some("Alo"@) {
        Act::Alo
    } else if tif == Some("Gtc"@) {
        Act::Gtc
    } else if tif == Some("Ioc"@) {
        Act::Ioc
    } else {
        Act::OtherOrder
    }
}

/// What a transaction does: an `order` places each order that it lists; a `cancel` or
/// `cancelByCloid` cancels as often as it lists cancels, once where it has no list; an
/// `evmRawTx` is a raw EVM transaction. Anything else does nothing that counts.
pub open spec fn tx_acts(tx: JsonView) -> Seq<Act> {
    let action = at_key(Some(tx), "action"@);
    let kind = str_in(at_key(action, "type"@));
    if kind == Some("order"@) {
        match array_in(at_key(action, "orders"@)) {
            Some(orders) => orders.map_values(|o: JsonView| order_act(o)),
            None => Seq::empty(),
        }
    } else if kind == Some("cancel"@) || kind == Some("cancelByCloid"@) {
        match array_in(at_key(action, "cancels"@)) {
            Some(cancels) => cancels.map_values(|c: JsonView| Act::Cancel),
            None => seq![Act::Cancel],
        }
    } else if kind == Some("evmRawTx"@) {
        seq![Act::EvmRaw]
    } else {
        Seq::empty()
    }
}

/// What the transactions do, one after another.
pub open spec fn all_acts(txs: Seq<JsonView>) -> Seq<Act>
    decreases txs.len(),
{
    if txs.len() == 0 {
        Seq::empty()
    } else {
        all_acts(txs.drop_last()) + tx_acts(txs.last())
    }
}

/// How often an act occurs.
pub open spec fn tally(acts: Seq<Act>, a: Act) -> nat
    decreases acts.len(),
{
    if acts.len() == 0 {
        0
    } else {
        tally(acts.drop_last(), a) + if acts.last() == a {
            1nat
        } else {
            0nat
        }
    }
}

/// How many acts are orders.
pub open spec fn order_tally(acts: Seq<Act>) -> nat {
    tally(acts, Act::Alo) + tally(acts, Act::Gtc) + tally(acts, Act::Ioc) + tally(
        acts,
        Act::OtherOrder,
    )
}

/// Whether a transaction was rejected: it carries an error that is not `null`.
pub open spec fn rejected(tx: JsonView) -> bool {
    let e = at_key(Some(tx), "error"@);
    e is Some && e != Some(JsonView::Null)
}

/// How many of the transactions were rejected.
pub open spec fn rejected_count(txs: Seq<JsonView>) -> nat
    decreases txs.len(),
{
    if txs.len() == 0 {
        0
    } else {
        rejected_count(txs.drop_last()) + if rejected(txs.last()) {
            1nat
        } else {
            0nat
        }
    }
}

/// The details that a reply of the explorer holds.
pub open spec fn block_details(reply: Option<JsonView>) -> Option<JsonView> {
    at_key(reply, "blockDetails"@)
}

/// The transactions that block details list.
pub open spec fn detail_txs(d: Option<JsonView>) -> Seq<JsonView> {
    match array_in(at_key(d, "txs"@)) {
        Some(t) => t,
        None => Seq::empty(),
    }
}

/// Whether the details describe the block asked for as `height` as `b`.
pub open spec fn describes_core(b: Core, height: u64, d: Option<JsonView>) -> bool {
    let txs = detail_txs(d);
    let acts = all_acts(txs);
    &&& b.height == u64_in(at_key(d, "height"@)).unwrap_or(height)
    &&& b.ms == u64_in(at_key(d, "blockTime"@)).unwrap_or(0)
    &&& b.txs == u64_in(at_key(d, "numTxs"@)).unwrap_or(txs.len() as u64)
    &&& b.orders == order_tally(acts)
    &&& b.alo == tally(acts, Act::Alo)
    &&& b.gtc == tally(acts, Act::Gtc)
    &&& b.ioc == tally(acts, Act::Ioc)
    &&& b.cancels == tally(acts, Act::Cancel)
    &&& b.evm_raw == tally(acts, Act::EvmRaw)
    &&& b.errs == rejected_count(txs)
    &&& b.proposer@ == lowercase(str_in(at_key(d, "proposer"@)).unwrap_or("?"@))
}

fn act_of_order(order: &Json) -> (r: Act)
    ensures
        r == order_act(order@),
{
    match as_str(get(get(get(Some(order), "t"), "limit"), "tif")) {
        Some(tif) => if same(tif, "Alo") {
            Act::Alo
        } else if same(tif, "Gtc") {
            Act::Gtc
        } else if same(tif, "Ioc") {
            Act::Ioc
        } else {
            Act::OtherOrder
        },
        None => Act::OtherOrder,
    }
}

fn push_acts(acts: &mut Vec<Act>, tx: &Json)
    ensures
        final(acts)@ == old(acts)@ + tx_acts(tx@),
{
    let action = get(Some(tx), "action");
    let ghost before = acts@;
    if let Some(kind) = as_str(get(action, "type")) {
        if same(kind, "order") {
            if let Some(orders) = as_array(get(action, "orders")) {
                let ghost placed = items(orders@).map_values(|o: JsonView| order_act(o));
                for i in 0..orders.len()
                    invariant
                        placed == items(orders@).map_values(|o: JsonView| order_act(o)),
                        acts@ == before + placed.take(i as int),
                {
                    acts.push(act_of_order(&orders[i]));
                    assert(acts@ =~= before + placed.take(i + 1));
                }
                assert(placed.take(orders@.len() as int) =~= placed);
            }
        } else if same(kind, "cancel") || same(kind, "cancelByCloid") {
            if let Some(cancels) = as_array(get(action, "cancels")) {
                let ghost made = items(cancels@).map_values(|c: JsonView| Act::Cancel);
                for i in 0..cancels.len()
                    invariant
                        made == items(cancels@).map_values(|c: JsonView| Act::Cancel),
                        acts@ == before + made.take(i as int),
                {
                    acts.push(Act::Cancel);
                    assert(acts@ =~= before + made.take(i + 1));
                }
                assert(made.take(cancels@.len() as int) =~= made);
            } else {
                acts.push(Act::Cancel);
            }
        } else if same(kind, "evmRawTx") {
            acts.push(Act::EvmRaw);
        }
    }
    assert(acts@ =~= before + tx_acts(tx@));
}

fn acts_of(txs: &Vec<Json>) -> (r: Vec<Act>)
    ensures
        r@ == all_acts(items(txs@)),
{
    let mut acts: Vec<Act> = Vec::new();
    let ghost ts = items(txs@);
    assert(ts.take(0) =~= Seq::empty());
    for i in 0..txs.len()
        invariant
            ts == items(txs@),
            acts@ == all_acts(ts.take(i as int)),
    {
        assert(ts.take(i + 1).drop_last() =~= ts.take(i as int));
        assert(ts.take(i + 1).last() == txs@[i as int]@);
        push_acts(&mut acts, &txs[i]);
    }
    assert(ts.take(txs@.len() as int) =~= ts);
    acts
}

fn count_act(acts: &Vec<Act>, a: Act) -> (r: usize)
    ensures
        r == tally(acts@, a),
{
    let mut n: usize = 0;
    assert(acts@.take(0) =~= Seq::empty());
    for i in 0..acts.len()
        invariant
            n == tally(acts@.take(i as int), a),
            n <= i,
    {
        assert(acts@.take(i + 1).drop_last() =~= acts@.take(i as int));
        if acts[i] == a {
            n += 1;
        }
    }
    assert(acts@.take(acts@.len() as int) =~= acts@);
    n
}

proof fn lemma_tallies_fit(acts: Seq<Act>)
    ensures
        order_tally(acts) + tally(acts, Act::Cancel) + tally(acts, Act::EvmRaw) == acts.len(),
    decreases acts.len(),
{
    if acts.len() > 0 {
        lemma_tallies_fit(acts.drop_last());
    }
}

fn count_rejected(txs: &Vec<Json>) -> (r: usize)
    ensures
        r == rejected_count(items(txs@)),
{
    let mut n: usize = 0;
    let ghost ts = items(txs@);
    assert(ts.take(0) =~= Seq::empty());
    for i in 0..txs.len()
        invariant
            ts == items(txs@),
            n == rejected_count(ts.take(i as int)),
            n <= i,
    {
        assert(ts.take(i + 1).drop_last() =~= ts.take(i as int));
        assert(ts.take(i + 1).last() == txs@[i as int]@);
        if is_present(get(Some(&txs[i]), "error")) {
            n += 1;
        }
    }
    assert(ts.take(txs@.len() as int) =~= ts);
    n
}

/// Assembles a block of the core chain from the explorer's reply to a request for the block
/// at `height`. There is no block where the reply has no details.
pub fn core_block(height: u64, reply: Option<&Json>) -> (r: Option<Core>)
    ensures
        r is Some <==> block_details(seen(reply)) is Some,
        r matches Some(b) ==> describes_core(b, height, block_details(seen(reply))),
{
    let d = get(reply, "blockDetails");
    if d.is_none() {
        return None;
    }
    let none: Vec<Json> = Vec::new();
    let txs = match as_array(get(d, "txs")) {
        Some(t) => t,
        None => &none,
    };
    assert(items(txs@) =~= detail_txs(seen(d)));
    let acts = acts_of(txs);
    proof {
        lemma_tallies_fit(acts@);
        assert(acts.len() == acts@.len());
    }
    let alo = count_act(&acts, Act::Alo);
    let gtc = count_act(&acts, Act::Gtc);
    let ioc = count_act(&acts, Act::Ioc);
    let other = count_act(&acts, Act::OtherOrder);
    let proposer = match as_str(get(d, "proposer")) {
        Some(s) => s,
        None => "?",
    };
    Some(
        Core {
            height: match as_u64(get(d, "height")) {
                Some(h) => h,
                None => height,
            },
            ms: match as_u64(get(d, "blockTime")) {
                Some(t) => t,
                None => 0,
            },
            txs: match as_u64(get(d, "numTxs")) {
                Some(n) => n,
                None => txs.len() as u64,
            },
            orders: alo + gtc + ioc + other,
            alo,
            gtc,
            ioc,
            cancels: count_act(&acts, Act::Cancel),
            evm_raw: count_act(&acts, Act::EvmRaw),
            errs: count_rejected(txs),
            proposer: to_lower(proposer),
        },
    )
}

/// Assembles a block of the core chain from the bytes of the explorer's reply.
pub fn read_core(height: u64, reply: &Option<Vec<u8>>) -> (r: Option<Core>)
    ensures
        r is Some <==> block_details(reply_of(bytes_in(*reply))) is Some,
        r matches Some(b) ==> describes_core(
            b,
            height,
            block_details(reply_of(bytes_in(*reply))),
        ),
{
    let j = read_reply(reply);
    core_block(height, j.as_ref())
}

// ---- laws ----

/// Orders by time in force never outnumber the orders, and what remains is orders of another
/// kind.
pub proof fn law_orders_by_time_in_force(b: Core, height: u64, d: Option<JsonView>)
    requires
        describes_core(b, height, d),
    ensures
        b.alo + b.gtc + b.ioc <= b.orders,
        b.orders - (b.alo + b.gtc + b.ioc) == tally(all_acts(detail_txs(d)), Act::OtherOrder),
{
}

/// A CoreWriter call is counted in one slot, and only CoreWriter calls are counted: over all
/// slots, the counts of a block add up to the number of its transactions that call
/// CoreWriter.
pub proof fn law_every_core_writer_call_counts_once(txs: Seq<JsonView>)
    ensures
        slot_count(txs, 0) + slot_count(txs, 1) + slot_count(txs, 2) + slot_count(txs, 3)
            + slot_count(txs, 4) + slot_count(txs, 5) == txs.filter(
            |t: JsonView| tx_slot(t) is Some,
        ).len(),
    decreases txs.len(),
{
    let calls = |t: JsonView| tx_slot(t) is Some;
    reveal(Seq::filter);
    if txs.len() > 0 {
        law_every_core_writer_call_counts_once(txs.drop_last());
        assert(txs.filter(calls) == if calls(txs.last()) {
            txs.drop_last().filter(calls).push(txs.last())
        } else {
            txs.drop_last().filter(calls)
        });
    }
}

/// A block is big or small by its gas limit alone.
pub proof fn law_size_is_decided_by_gas_limit(
    a: Evm,
    b: Evm,
    m: u64,
    n: u64,
    x: Option<JsonView>,
    y: Option<JsonView>,
    xs: Option<JsonView>,
    ys: Option<JsonView>,
    xr: Option<JsonView>,
    yr: Option<JsonView>,
)
    requires
        describes_evm(a, m, x, xs, xr),
        describes_evm(b, n, y, ys, yr),
        a.gas_limit == b.gas_limit,
    ensures
        a.big == b.big,
{
}

/// The kind of the action of a transaction.
pub open spec fn kind_of(tx: JsonView) -> Option<Seq<char>> {
    str_in(at_key(at_key(Some(tx), "action"@), "type"@))
}

/// The list that the action of a transaction has under a name.
pub open spec fn listed_in(tx: JsonView, name: Seq<char>) -> Option<Seq<JsonView>> {
    array_in(at_key(at_key(Some(tx), "action"@), name))
}

/// The orders that a transaction places: those that it lists, where it is an `order`.
pub open spec fn orders_in(tx: JsonView) -> Seq<JsonView> {
    if kind_of(tx) == Some("order"@) && listed_in(tx, "orders"@) is Some {
        listed_in(tx, "orders"@)->0
    } else {
        Seq::empty()
    }
}

/// How many of the orders that a transaction places have a time in force.
pub open spec fn orders_of(tx: JsonView, tif: Seq<char>) -> int {
    orders_in(tx).filter(
        |o: JsonView|
            str_in(at_key(at_key(at_key(Some(o), "t"@), "limit"@), "tif"@)) == Some(tif),
    ).len() as int
}

/// How many cancels a transaction makes: as many as it lists, where it is a `cancel` or a
/// `cancelByCloid`, and one where it lists none.
pub open spec fn cancels_in(tx: JsonView) -> int {
    if kind_of(tx) == Some("cancel"@) || kind_of(tx) == Some("cancelByCloid"@) {
        match listed_in(tx, "cancels"@) {
            Some(cancels) => cancels.len() as int,
            None => 1,
        }
    } else {
        0
    }
}

proof fn lemma_tally_adds(s: Seq<Act>, t: Seq<Act>, a: Act)
    ensures
        tally(s + t, a) == tally(s, a) + tally(t, a),
    decreases t.len(),
{
    if t.len() == 0 {
        assert(s + t =~= s);
    } else {
        assert((s + t).drop_last() =~= s + t.drop_last());
        lemma_tally_adds(s, t.drop_last(), a);
    }
}

proof fn lemma_kinds()
    ensures
        "order"@ != "cancel"@ && "order"@ != "cancelByCloid"@ && "order"@ != "evmRawTx"@,
        "cancel"@ != "evmRawTx"@ && "cancelByCloid"@ != "evmRawTx"@,
        "Alo"@ != "Gtc"@ && "Alo"@ != "Ioc"@ && "Gtc"@ != "Ioc"@,
{
    reveal_strlit("order");
    reveal_strlit("cancel");
    reveal_strlit("cancelByCloid");
    reveal_strlit("evmRawTx");
    reveal_strlit("Alo");
    reveal_strlit("Gtc");
    reveal_strlit("Ioc");
    assert("order"@.len() == 5 && "cancel"@.len() == 6 && "cancelByCloid"@.len() == 13
        && "evmRawTx"@.len() == 8);
    assert("Alo"@[0] != "Gtc"@[0] && "Alo"@[0] != "Ioc"@[0] && "Gtc"@[0] != "Ioc"@[0]);
}

proof fn lemma_placed(orders: Seq<JsonView>, a: Act, tif: Seq<char>)
    requires
        (a == Act::Alo && tif == "Alo"@) || (a == Act::Gtc && tif == "Gtc"@) || (a == Act::Ioc && tif
            == "Ioc"@),
    ensures
        ({
            let acts = orders.map_values(|o: JsonView| order_act(o));
            &&& tally(acts, a) == orders.filter(
                |o: JsonView|
                    str_in(at_key(at_key(at_key(Some(o), "t"@), "limit"@), "tif"@)) == Some(tif),
            ).len()
            &&& order_tally(acts) == orders.len()
            &&& tally(acts, Act::Cancel) == 0
            &&& tally(acts, Act::EvmRaw) == 0
        }),
    decreases orders.len(),
{
    reveal(Seq::filter);
    lemma_kinds();
    let acts = orders.map_values(|o: JsonView| order_act(o));
    if orders.len() > 0 {
        lemma_placed(orders.drop_last(), a, tif);
        assert(acts.drop_last() =~= orders.drop_last().map_values(|o: JsonView| order_act(o)));
        assert(acts.last() == order_act(orders.last()));
    }
}

proof fn lemma_cancelled(cancels: Seq<JsonView>, a: Act)
    ensures
        tally(cancels.map_values(|c: JsonView| Act::Cancel), a) == if a == Act::Cancel {
            cancels.len()
        } else {
            0
        },
    decreases cancels.len(),
{
    let acts = cancels.map_values(|c: JsonView| Act::Cancel);
    if cancels.len() > 0 {
        lemma_cancelled(cancels.drop_last(), a);
        assert(acts.drop_last() =~= cancels.drop_last().map_values(|c: JsonView| Act::Cancel));
    }
}

/// What a transaction counts for: each order that it lists, by its time in force; each cancel
/// that it lists, whether by order or by client's id; and a raw EVM transaction. What it counts
/// for in one of these it does not count for in another.
pub proof fn law_transactions_count_for_what_they_list(tx: JsonView)
    ensures
        order_tally(tx_acts(tx)) == orders_in(tx).len(),
        tally(tx_acts(tx), Act::Alo) == orders_of(tx, "Alo"@),
        tally(tx_acts(tx), Act::Gtc) == orders_of(tx, "Gtc"@),
        tally(tx_acts(tx), Act::Ioc) == orders_of(tx, "Ioc"@),
        tally(tx_acts(tx), Act::Cancel) == cancels_in(tx),
        tally(tx_acts(tx), Act::EvmRaw) == if kind_of(tx) == Some("evmRawTx"@) {
            1nat
        } else {
            0
        },
        kind_of(tx) == Some("cancel"@) || kind_of(tx) == Some("cancelByCloid"@) ==> (match listed_in(
            tx,
            "cancels"@,
        ) {
            Some(cancels) => tally(tx_acts(tx), Act::Cancel) == cancels.len(),
            None => tally(tx_acts(tx), Act::Cancel) == 1,
        }),
{
    lemma_kinds();
    reveal_with_fuel(tally, 2);
    let orders = orders_in(tx);
    lemma_placed(orders, Act::Alo, "Alo"@);
    lemma_placed(orders, Act::Gtc, "Gtc"@);
    lemma_placed(orders, Act::Ioc, "Ioc"@);
    let kind = kind_of(tx);
    if kind == Some("order"@) {
        assert(tx_acts(tx) =~= orders.map_values(|o: JsonView| order_act(o)));
    } else {
        assert(orders.map_values(|o: JsonView| order_act(o)) =~= Seq::<Act>::empty());
        if kind == Some("cancel"@) || kind == Some("cancelByCloid"@) {
            match listed_in(tx, "cancels"@) {
                Some(cancels) => {
                    lemma_cancelled(cancels, Act::Alo);
                    lemma_cancelled(cancels, Act::Gtc);
                    lemma_cancelled(cancels, Act::Ioc);
                    lemma_cancelled(cancels, Act::OtherOrder);
                    lemma_cancelled(cancels, Act::Cancel);
                    lemma_cancelled(cancels, Act::EvmRaw);
                },
                None => {
                    assert(seq![Act::Cancel].drop_last() =~= Seq::empty());
                },
            }
        } else if kind == Some("evmRawTx"@) {
            assert(seq![Act::EvmRaw].drop_last() =~= Seq::empty());
        }
    }
}

proof fn lemma_acts_add_up(txs: Seq<JsonView>)
    ensures
        order_tally(all_acts(txs)) == total_of(txs, |tx: JsonView| orders_in(tx).len() as int),
        tally(all_acts(txs), Act::Alo) == total_of(txs, |tx: JsonView| orders_of(tx, "Alo"@)),
        tally(all_acts(txs), Act::Gtc) == total_of(txs, |tx: JsonView| orders_of(tx, "Gtc"@)),
        tally(all_acts(txs), Act::Ioc) == total_of(txs, |tx: JsonView| orders_of(tx, "Ioc"@)),
        tally(all_acts(txs), Act::Cancel) == total_of(txs, |tx: JsonView| cancels_in(tx)),
        tally(all_acts(txs), Act::EvmRaw) == txs.filter(
            |tx: JsonView| kind_of(tx) == Some("evmRawTx"@),
        ).len(),
        rejected_count(txs) == txs.filter(
            |tx: JsonView|
                at_key(Some(tx), "error"@) is Some && at_key(Some(tx), "error"@) != Some(
                    JsonView::Null,
                ),
        ).len(),
    decreases txs.len(),
{
    reveal(Seq::filter);
    if txs.len() > 0 {
        let rest = txs.drop_last();
        lemma_acts_add_up(rest);
        law_transactions_count_for_what_they_list(txs.last());
        let a = all_acts(rest);
        let b = tx_acts(txs.last());
        lemma_tally_adds(a, b, Act::Alo);
        lemma_tally_adds(a, b, Act::Gtc);
        lemma_tally_adds(a, b, Act::Ioc);
        lemma_tally_adds(a, b, Act::OtherOrder);
        lemma_tally_adds(a, b, Act::Cancel);
        lemma_tally_adds(a, b, Act::EvmRaw);
    }
}

/// What is read of a core block: of all its transactions together the orders, by time in force,
/// the cancels, the raw EVM transactions, and how many were rejected.
pub proof fn law_core_blocks_count_their_transactions(
    height: u64,
    reply: Option<&Json>,
    r: Option<Core>,
    txs: Seq<JsonView>,
)
    requires
        call_ensures(core_block, (height, reply), r),
        txs == match array_in(at_key(at_key(seen(reply), "blockDetails"@), "txs"@)) {
            Some(t) => t,
            None => Seq::empty(),
        },
    ensures
        r is Some <==> at_key(seen(reply), "blockDetails"@) is Some,
        r matches Some(b) ==> {
            &&& b.orders == total_of(txs, |tx: JsonView| orders_in(tx).len() as int)
            &&& b.alo == total_of(txs, |tx: JsonView| orders_of(tx, "Alo"@))
            &&& b.gtc == total_of(txs, |tx: JsonView| orders_of(tx, "Gtc"@))
            &&& b.ioc == total_of(txs, |tx: JsonView| orders_of(tx, "Ioc"@))
            &&& b.cancels == total_of(txs, |tx: JsonView| cancels_in(tx))
            &&& b.evm_raw == txs.filter(|tx: JsonView| kind_of(tx) == Some("evmRawTx"@)).len()
            &&& b.errs == txs.filter(
                |tx: JsonView|
                    at_key(Some(tx), "error"@) is Some && at_key(Some(tx), "error"@) != Some(
                        JsonView::Null,
                    ),
            ).len()
        },
{
    lemma_acts_add_up(txs);
    assert(txs =~= detail_txs(block_details(seen(reply))));
}

/// What is read of a core block's header: its height, or the one asked for where it gives none;
/// its time; its number of transactions, or that of those listed; and its proposer.
pub proof fn law_core_blocks_keep_their_header(
    height: u64,
    reply: Option<&Json>,
    b: Core,
    d: Option<JsonView>,
    txs: Seq<JsonView>,
)
    requires
        call_ensures(core_block, (height, reply), Some(b)),
        d == at_key(seen(reply), "blockDetails"@),
        txs == match array_in(at_key(d, "txs"@)) {
            Some(t) => t,
            None => Seq::empty(),
        },
        txs.len() <= u64::MAX,
    ensures
        u64_in(at_key(d, "height"@)) is Some ==> u64_in(at_key(d, "height"@)) == Some(b.height),
        u64_in(at_key(d, "height"@)) is None ==> b.height == height,
        u64_in(at_key(d, "blockTime"@)) is Some ==> u64_in(at_key(d, "blockTime"@)) == Some(b.ms),
        u64_in(at_key(d, "blockTime"@)) is None ==> b.ms == 0,
        u64_in(at_key(d, "numTxs"@)) is Some ==> u64_in(at_key(d, "numTxs"@)) == Some(b.txs),
        u64_in(at_key(d, "numTxs"@)) is None ==> b.txs == txs.len(),
        str_in(at_key(d, "proposer"@)) is Some ==> b.proposer@ == lowercase(
            str_in(at_key(d, "proposer"@))->0,
        ),
        str_in(at_key(d, "proposer"@)) is None ==> b.proposer@ == lowercase("?"@),
{
}

/// A block is read from bytes as from the JSON that they are.
pub proof fn law_core_blocks_are_read_from_their_bytes(
    height: u64,
    bytes: Vec<u8>,
    r: Option<Core>,
    d: Option<JsonView>,
    txs: Seq<JsonView>,
)
    requires
        call_ensures(read_core, (height, &Some(bytes)), r),
        d == at_key(parsed_bytes(bytes@), "blockDetails"@),
        txs == match array_in(at_key(d, "txs"@)) {
            Some(t) => t,
            None => Seq::empty(),
        },
    ensures
        r is Some <==> d is Some,
        r matches Some(b) ==> {
            &&& b.orders == total_of(txs, |tx: JsonView| orders_in(tx).len() as int)
            &&& b.cancels == total_of(txs, |tx: JsonView| cancels_in(tx))
            &&& u64_in(at_key(d, "blockTime"@)) is Some ==> u64_in(at_key(d, "blockTime"@)) == Some(
                b.ms,
            )
        },
{
    lemma_acts_add_up(txs);
    assert(txs =~= detail_txs(d));
}

/// Whether an address is CoreWriter's: `0x`, of either case, and forty threes.
pub open spec fn is_core_writer(to: Seq<char>) -> bool {
    &&& to.len() == 42
    &&& to[0] == '0'
    &&& to[1] == 'x' || to[1] == 'X'
    &&& forall|i: int| 2 <= i < 42 ==> #[trigger] to[i] == '3'
}

proof fn lemma_core_writer(to: Seq<char>)
    ensures
        same_ignoring_case(to, "0x3333333333333333333333333333333333333333"@) <==> is_core_writer(
            to,
        ),
{
    reveal_strlit("0x3333333333333333333333333333333333333333");
    let w = "0x3333333333333333333333333333333333333333"@;
    assert(w.len() == 42 && w[0] == '0' && w[1] == 'x');
    assert forall|i: int| 2 <= i < 42 implies #[trigger] w[i] == '3' by {}
    if same_ignoring_case(to, w) {
        assert(ascii_lower(to[0]) == ascii_lower(w[0]));
        assert(ascii_lower(to[1]) == ascii_lower(w[1]));
        assert forall|i: int| 2 <= i < 42 implies #[trigger] to[i] == '3' by {
            assert(ascii_lower(to[i]) == ascii_lower(w[i]));
        }
    }
    if is_core_writer(to) {
        assert forall|i: int| 0 <= i < to.len() implies ascii_lower(#[trigger] to[i])
            == ascii_lower(w[i]) by {}
    }
}

/// The action of a call in ASCII is named by its characters from the hundred and forty-first to
/// the hundred and forty-sixth, a hexadecimal number; none, that is zero, where there are fewer
/// or they are no number.
pub proof fn law_action_ids_stand_behind_the_version(input: Seq<char>)
    requires
        is_ascii_chars(input),
    ensures
        input.len() < 146 ==> action_id(input) == 0,
        input.len() >= 146 ==> match hex_number(input.subrange(140, 146), u32::MAX as nat) {
            Some(id) => action_id(input) == id,
            None => action_id(input) == 0,
        },
{
    is_ascii_chars_encode_utf8(input);
    let bytes = encode_utf8(input);
    if input.len() >= 146 {
        assert(as_chars(bytes.subrange(140, 146)) =~= input.subrange(140, 146)) by {
            assert forall|i: int| 0 <= i < 6 implies as_chars(bytes.subrange(140, 146))[i]
                == input.subrange(140, 146)[i] by {
                assert(bytes[140 + i] == input[140 + i] as u8);
                assert(0 <= input[140 + i] as int <= 127);
            }
        }
    }
}

/// The actions of CoreWriter: one is a limit order, ten and eleven are cancels, six is a spot
/// send, seven a transfer between classes, thirteen the sending of an asset, and all else is of
/// another kind.
pub proof fn law_actions_have_their_slots(input: &str, r: usize)
    requires
        call_ensures(cw_slot, (input,), r),
    ensures
        r == 0 <==> action_id(input@) == 1,
        r == 1 <==> action_id(input@) == 10 || action_id(input@) == 11,
        r == 2 <==> action_id(input@) == 6,
        r == 3 <==> action_id(input@) == 7,
        r == 4 <==> action_id(input@) == 13,
        r <= 5,
{
}

/// The slots are called by their actions.
pub proof fn law_slots_have_their_names(slot: usize, r: &'static str)
    requires
        call_ensures(cw_name, (slot,), r),
    ensures
        r@ == slot_name(slot as int),
        slot == 0 ==> r@ == "limit"@,
        slot == 1 ==> r@ == "cancel"@,
        slot == 2 ==> r@ == "spotSend"@,
        slot == 3 ==> r@ == "usdClass"@,
        slot == 4 ==> r@ == "sendAsset"@,
        slot >= 5 ==> r@ == "other"@,
{
}

/// Whether a transaction calls CoreWriter with an action of the slot: it is sent to CoreWriter's
/// address, in letters of either case, and its input, empty where it has none, names the action.
pub open spec fn calls_slot(tx: JsonView, slot: int) -> bool {
    &&& str_in(at_key(Some(tx), "to"@)) matches Some(to) && is_core_writer(to)
    &&& slot_of_id(
        action_id(
            match str_in(at_key(Some(tx), "input"@)) {
                Some(input) => input,
                None => Seq::empty(),
            },
        ),
    ) == slot
}

proof fn lemma_slot_count(txs: Seq<JsonView>, slot: int)
    ensures
        slot_count(txs, slot) == txs.filter(|tx: JsonView| calls_slot(tx, slot)).len(),
    decreases txs.len(),
{
    reveal(Seq::filter);
    if txs.len() > 0 {
        lemma_slot_count(txs.drop_last(), slot);
        let tx = txs.last();
        reveal_strlit("");
        assert(""@ =~= Seq::empty());
        if let Some(to) = str_in(at_key(Some(tx), "to"@)) {
            lemma_core_writer(to);
        }
    }
}

proof fn lemma_reverted_count(receipts: Seq<JsonView>)
    ensures
        reverted_count(receipts) == receipts.filter(
            |x: JsonView| hex_in(at_key(Some(x), "status"@)) == 0,
        ).len(),
    decreases receipts.len(),
{
    reveal(Seq::filter);
    if receipts.len() > 0 {
        lemma_reverted_count(receipts.drop_last());
    }
}

/// What is read of an EVM block: its header as written; all its transactions; those that call
/// CoreWriter, by the slot of their action; its system transactions; and of its receipts those
/// without a status other than zero. It is a big one where its gas limit is above ten million.
pub proof fn law_evm_blocks_count_their_transactions(
    num: u64,
    block: Option<&Json>,
    sys: Option<&Json>,
    receipts: Option<&Json>,
    r: Option<Evm>,
    k: int,
)
    requires
        call_ensures(evm_block, (num, block, sys, receipts), r),
        0 <= k < 6,
    ensures
        ({
            let h = at_key(seen(block), "result"@);
            let txs = array_in(at_key(h, "transactions"@));
            &&& r is Some <==> txs is Some
            &&& r matches Some(b) ==> {
                &&& b.num == num
                &&& b.txs == txs->0.len()
                &&& b.ts == hex_in(at_key(h, "timestamp"@))
                &&& b.gas_used == hex_in(at_key(h, "gasUsed"@))
                &&& b.gas_limit == hex_in(at_key(h, "gasLimit"@))
                &&& b.base_fee == hex_in(at_key(h, "baseFeePerGas"@))
                &&& b.big <==> b.gas_limit > 10_000_000
                &&& b.cw@[k] == txs->0.filter(|tx: JsonView| calls_slot(tx, k)).len()
                &&& b.sys == (match array_in(at_key(seen(sys), "result"@)) {
                    Some(s) => s.len(),
                    None => 0,
                })
                &&& b.reverted == (match array_in(at_key(seen(receipts), "result"@)) {
                    Some(rs) => rs.filter(
                        |x: JsonView| hex_in(at_key(Some(x), "status"@)) == 0,
                    ).len(),
                    None => 0,
                })
            }
        }),
{
    if let Some(b) = r {
        let txs = listed_txs(seen(block))->0;
        lemma_slot_count(txs, k);
        let c = b.cw@[k];
        if let Some(rs) = array_in(rpc_result(seen(receipts))) {
            lemma_reverted_count(rs);
        }
    }
}

/// A block is read from the bytes of the three replies as from the JSON that they are.
pub proof fn law_evm_blocks_are_read_from_their_bytes(
    num: u64,
    block: Vec<u8>,
    sys: Vec<u8>,
    receipts: Vec<u8>,
    r: Option<Evm>,
    k: int,
)
    requires
        call_ensures(read_evm, (num, &Some(block), &Some(sys), &Some(receipts)), r),
        0 <= k < 6,
    ensures
        ({
            let h = at_key(parsed_bytes(block@), "result"@);
            let txs = array_in(at_key(h, "transactions"@));
            &&& r is Some <==> txs is Some
            &&& r matches Some(b) ==> {
                &&& b.num == num
                &&& b.txs == txs->0.len()
                &&& b.gas_used == hex_in(at_key(h, "gasUsed"@))
                &&& b.cw@[k] == txs->0.filter(|tx: JsonView| calls_slot(tx, k)).len()
                &&& array_in(at_key(parsed_bytes(sys@), "result"@)) matches Some(s) ==> b.sys
                    == s.len()
                &&& array_in(at_key(parsed_bytes(receipts@), "result"@)) matches Some(rs)
                    ==> b.reverted == rs.filter(
                    |x: JsonView| hex_in(at_key(Some(x), "status"@)) == 0,
                ).len()
            }
        }),
{
    if let Some(b) = r {
        lemma_slot_count(listed_txs(parsed_bytes(block@))->0, k);
        let c = b.cw@[k];
        if let Some(rs) = array_in(rpc_result(parsed_bytes(receipts@))) {
            lemma_reverted_count(rs);
        }
    }
}

/// A number is read from the digits of a string, behind `0x`; whatever is no string, or no
/// numeral of a number that fits, reads as zero.
pub proof fn law_hex_reads_strings_of_digits(o: Option<&Json>, r: u64, n: u64)
    requires
        call_ensures(hex, (o,), r),
    ensures
        str_in(seen(o)) == Some(tag_of(n)) ==> r == n,
        str_in(seen(o)) is None ==> r == 0,
        str_in(seen(o)) matches Some(s) ==> r == hex_or_zero(s),
        r == hex_in(seen(o)),
{
    law_tags_read_back(n);
}

/// A reply is read from its bytes where there are any and they are JSON; CoreWriter's address is
/// of forty threes; and a reply lists transactions where its result has an array of them.
pub proof fn law_replies_are_read(
    bytes: Vec<u8>,
    some: Option<Json>,
    none: Option<Json>,
    address: &'static str,
    block: Option<&Json>,
    lists: bool,
)
    requires
        call_ensures(read_reply, (&Some(bytes),), some),
        call_ensures(read_reply, (&None::<Vec<u8>>,), none),
        call_ensures(core_writer, (), address),
        call_ensures(lists_transactions, (block,), lists),
    ensures
        none is None,
        some matches Some(j) ==> parsed_bytes(bytes@) == Some(j@),
        some is None ==> parsed_bytes(bytes@) is None,
        is_core_writer(address@) && address@[1] == 'x',
        lists <==> array_in(at_key(at_key(seen(block), "result"@), "transactions"@)) is Some,
{
    reveal_strlit("0x3333333333333333333333333333333333333333");
    assert forall|i: int| 2 <= i < 42 implies #[trigger] address@[i] == '3' by {}
}

} // verus!
