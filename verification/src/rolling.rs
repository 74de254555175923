//! What is said of the retained window as a whole: everything asked about that is not a
//! property of a single block. Shares and rates leave as numerator and denominator.
use vstd::prelude::*;

use std::collections::VecDeque;

use crate::blocks::{cw_name, slot_name, Core, Evm};
use crate::clock::{law_countdown_ends_on_the_next_minute, next_big, to_minute};
use crate::order::{
    ascending, ints, is_order, law_quantiles_ascend, law_ranks_are_nearest, lemma_order_covers,
    percentile, precedes, quantile, stable_order,
};
use crate::text::{decimal, long_decimal_string, same};

verus! {

/// A number over another one that is not zero.
#[derive(Clone, Copy, Debug, PartialEq, Eq, Structural)]
pub struct Ratio {
    pub num: u128,
    pub den: u128,
}

/// `num` over `den`; `None` over zero.
pub open spec fn ratio_of(num: nat, den: nat) -> Option<Ratio> {
    if den == 0 {
        None
    } else {
        Some(Ratio { num: num as u128, den: den as u128 })
    }
}

/// `num` over `den`; `None` over zero.
pub fn ratio(num: u128, den: u128) -> (r: Option<Ratio>)
    ensures
        r == ratio_of(num as nat, den as nat),
{
    if den == 0 {
        None
    } else {
        Some(Ratio { num, den })
    }
}

/// The aggregate view over the retained window.
#[derive(Debug)]
pub struct Rolling {
    /// Time between consecutive core blocks, in milliseconds: median, 95th percentile, most.
    pub core_dt_p50: u64,
    pub core_dt_p95: u64,
    pub core_dt_max: u64,
    /// Orders over the milliseconds that consecutive core blocks took.
    pub orders_per_ms: Option<Ratio>,
    /// Orders that take over all orders.
    pub taker_share: Option<Ratio>,
    /// Cancels over orders.
    pub cancel_ratio: Option<Ratio>,
    /// Rejected transactions over all transactions.
    pub err_rate: Option<Ratio>,
    /// The three who proposed most core blocks, and how many each.
    pub proposers: Vec<(String, usize)>,
    /// For each small EVM block the gas used over the gas limit.
    pub evm_util: Vec<Option<Ratio>>,
    /// Median time between small EVM blocks, in seconds.
    pub evm_dts_p50: u64,
    /// The base fee of the newest small EVM block, zero where there is none.
    pub base_fee: u64,
    /// Reverted transactions over all transactions of small EVM blocks.
    pub revert_rate: Option<Ratio>,
    /// CoreWriter calls by action slot.
    pub cw: [u128; 6],
    /// System transactions.
    pub sys: u128,
    /// The gas used over the gas limit of the newest big EVM block.
    pub big_util: Option<Ratio>,
    /// Seconds to the next big block.
    pub next_big_s: u64,
}

// ---- core blocks ----

/// The times between consecutive blocks of a window that is listed newest first. A pair
/// across a skip, or whose clock runs backwards, has none.
pub open spec fn core_dts(s: Seq<Core>) -> Seq<u64>
    decreases s.len(),
{
    if s.len() < 2 {
        Seq::empty()
    } else {
        let newer = s[s.len() - 2];
        let older = s[s.len() - 1];
        let rest = core_dts(s.drop_last());
        if newer.height == older.height + 1 && newer.ms >= older.ms {
            rest.push((newer.ms - older.ms) as u64)
        } else {
            rest
        }
    }
}

/// The sum of numbers.
pub open spec fn sum(s: Seq<u64>) -> nat
    decreases s.len(),
{
    if s.len() == 0 {
        0
    } else {
        sum(s.drop_last()) + s.last() as nat
    }
}

/// The largest of numbers, zero where there are none.
pub open spec fn most(s: Seq<u64>) -> u64
    decreases s.len(),
{
    if s.len() == 0 {
        0
    } else if s.last() > most(s.drop_last()) {
        s.last()
    } else {
        most(s.drop_last())
    }
}

/// Sums over core blocks.
pub ghost struct CoreSums {
    pub orders: nat,
    pub ioc: nat,
    pub cancels: nat,
    pub txs: nat,
    pub errs: nat,
}

/// What the core blocks of a window hold together.
pub open spec fn core_sums(s: Seq<Core>) -> CoreSums
    decreases s.len(),
{
    if s.len() == 0 {
        CoreSums { orders: 0, ioc: 0, cancels: 0, txs: 0, errs: 0 }
    } else {
        let rest = core_sums(s.drop_last());
        let b = s.last();
        CoreSums {
            orders: rest.orders + b.orders as nat,
            ioc: rest.ioc + b.ioc as nat,
            cancels: rest.cancels + b.cancels as nat,
            txs: rest.txs + b.txs as nat,
            errs: rest.errs + b.errs as nat,
        }
    }
}

/// How many blocks of a window an address proposed.
pub open spec fn proposed(s: Seq<Core>, p: Seq<char>) -> nat
    decreases s.len(),
{
    if s.len() == 0 {
        0
    } else {
        proposed(s.drop_last(), p) + if s.last().proposer@ == p {
            1nat
        } else {
            0nat
        }
    }
}

/// Whether `top` lists who proposed most: distinct proposers with the number of blocks each
/// proposed, most first, three or all there are; nobody who is not listed proposed more than
/// anyone who is. Between equals, who is listed is open.
pub open spec fn top_proposers(s: Seq<Core>, top: Seq<(String, usize)>) -> bool {
    &&& top.len() <= 3
    &&& forall|i: int|
        0 <= i < top.len() ==> (#[trigger] top[i]).1 == proposed(s, top[i].0@) && top[i].1 > 0
    &&& forall|i: int, j: int|
        0 <= i < j < top.len() ==> (#[trigger] top[i]).0@ != (#[trigger] top[j]).0@ && top[i].1
            >= top[j].1
    &&& forall|p: Seq<char>, i: int|
        (forall|j: int| 0 <= j < top.len() ==> (#[trigger] top[j]).0@ != p) && 0 <= i < top.len()
            ==> #[trigger] proposed(s, p) <= (#[trigger] top[i]).1
    &&& forall|p: Seq<char>|
        top.len() < 3 && #[trigger] proposed(s, p) > 0 ==> exists|j: int|
            0 <= j < top.len() && (#[trigger] top[j]).0@ == p
}

fn core_dts_of(core: &VecDeque<Core>) -> (r: Vec<u64>)
    ensures
        r@ == core_dts(core@),
{
    let mut r: Vec<u64> = Vec::new();
    if core.len() == 0 {
        return r;
    }
    let mut i: usize = 1;
    assert(core@.take(1).len() == 1);
    while i < core.len()
        invariant
            1 <= i <= core@.len(),
            r@ == core_dts(core@.take(i as int)),
        decreases core.len() - i,
    {
        let newer = &core[i - 1];
        let older = &core[i];
        assert(core@.take(i + 1).drop_last() =~= core@.take(i as int));
        if newer.height > 0 && newer.height - 1 == older.height && newer.ms >= older.ms {
            r.push(newer.ms - older.ms);
        }
        i += 1;
    }
    assert(core@.take(i as int) =~= core@);
    r
}

fn sum_of(v: &Vec<u64>) -> (r: u128)
    ensures
        r == sum(v@),
{
    let mut r: u128 = 0;
    assert(v@.take(0) =~= Seq::empty());
    for i in 0..v.len()
        invariant
            r == sum(v@.take(i as int)),
            r <= i * 0xffff_ffff_ffff_ffff,
    {
        assert(v@.take(i + 1).drop_last() =~= v@.take(i as int));
        r = r + v[i] as u128;
    }
    assert(v@.take(v@.len() as int) =~= v@);
    r
}

fn most_of(v: &Vec<u64>) -> (r: u64)
    ensures
        r == most(v@),
{
    let mut r: u64 = 0;
    assert(v@.take(0) =~= Seq::empty());
    for i in 0..v.len()
        invariant
            r == most(v@.take(i as int)),
    {
        assert(v@.take(i + 1).drop_last() =~= v@.take(i as int));
        if v[i] > r {
            r = v[i];
        }
    }
    assert(v@.take(v@.len() as int) =~= v@);
    r
}

fn copy_of(v: &Vec<u64>) -> (r: Vec<u64>)
    ensures
        r@ == v@,
{
    let mut r: Vec<u64> = Vec::new();
    for i in 0..v.len()
        invariant
            r@ == v@.take(i as int),
    {
        r.push(v[i]);
        assert(v@.take(i + 1) =~= v@.take(i as int).push(v@[i as int]));
    }
    assert(v@.take(v@.len() as int) =~= v@);
    r
}

struct CoreTotals {
    orders: u128,
    ioc: u128,
    cancels: u128,
    txs: u128,
    errs: u128,
}

fn core_totals(core: &VecDeque<Core>) -> (r: CoreTotals)
    ensures
        core_sums(core@) == (CoreSums {
            orders: r.orders as nat,
            ioc: r.ioc as nat,
            cancels: r.cancels as nat,
            txs: r.txs as nat,
            errs: r.errs as nat,
        }),
{
    let mut r = CoreTotals { orders: 0, ioc: 0, cancels: 0, txs: 0, errs: 0 };
    assert(core@.take(0) =~= Seq::empty());
    for i in 0..core.len()
        invariant
            core_sums(core@.take(i as int)) == (CoreSums {
                orders: r.orders as nat,
                ioc: r.ioc as nat,
                cancels: r.cancels as nat,
                txs: r.txs as nat,
                errs: r.errs as nat,
            }),
            r.orders <= i * 0xffff_ffff_ffff_ffff,
            r.ioc <= i * 0xffff_ffff_ffff_ffff,
            r.cancels <= i * 0xffff_ffff_ffff_ffff,
            r.txs <= i * 0xffff_ffff_ffff_ffff,
            r.errs <= i * 0xffff_ffff_ffff_ffff,
    {
        assert(core@.take(i + 1).drop_last() =~= core@.take(i as int));
        let b = &core[i];
        r =
        CoreTotals {
            orders: r.orders + b.orders as u128,
            ioc: r.ioc + b.ioc as u128,
            cancels: r.cancels + b.cancels as u128,
            txs: r.txs + b.txs as u128,
            errs: r.errs + b.errs as u128,
        };
    }
    assert(core@.take(core@.len() as int) =~= core@);
    r
}

/// Whether `ps` lists every proposer of a window once, with the number of blocks it proposed.
spec fn all_proposers(s: Seq<Core>, ps: Seq<(String, usize)>) -> bool {
    &&& forall|i: int|
        0 <= i < ps.len() ==> (#[trigger] ps[i]).1 == proposed(s, ps[i].0@) && ps[i].1 > 0
    &&& forall|i: int, j: int|
        0 <= i < j < ps.len() ==> (#[trigger] ps[i]).0@ != (#[trigger] ps[j]).0@
    &&& forall|p: Seq<char>| #[trigger]
        proposed(s, p) > 0 ==> exists|j: int| 0 <= j < ps.len() && (#[trigger] ps[j]).0@ == p
}

fn index_of_proposer(ps: &Vec<(String, usize)>, p: &str) -> (r: Option<usize>)
    ensures
        match r {
            Some(i) => i < ps@.len() && ps@[i as int].0@ == p@,
            None => forall|j: int| 0 <= j < ps@.len() ==> (#[trigger] ps@[j]).0@ != p@,
        },
{
    for i in 0..ps.len()
        invariant
            forall|j: int| 0 <= j < i ==> (#[trigger] ps@[j]).0@ != p@,
    {
        if same(ps[i].0.as_str(), p) {
            return Some(i);
        }
    }
    None
}

fn count_proposers(core: &VecDeque<Core>) -> (r: Vec<(String, usize)>)
    ensures
        all_proposers(core@, r@),
{
    let mut ps: Vec<(String, usize)> = Vec::new();
    assert(core@.take(0) =~= Seq::empty());
    for i in 0..core.len()
        invariant
            all_proposers(core@.take(i as int), ps@),
            forall|j: int| 0 <= j < ps@.len() ==> (#[trigger] ps@[j]).1 <= i,
    {
        let ghost s = core@.take(i as int);
        let ghost t = core@.take(i + 1);
        let ghost before = ps@;
        assert(t.drop_last() =~= s);
        let p = core[i].proposer.as_str();
        match index_of_proposer(&ps, p) {
            Some(k) => {
                let n: usize = ps[k].1 + 1;
                let name = ps[k].0.clone();
                ps[k] = (name, n);
                assert forall|q: Seq<char>| #[trigger] proposed(t, q) > 0 implies exists|j: int|
                    0 <= j < ps@.len() && (#[trigger] ps@[j]).0@ == q by {
                    if q == p@ {
                        assert(ps@[k as int].0@ == q);
                    } else {
                        assert(proposed(s, q) > 0);
                        let j = choose|j: int| 0 <= j < before.len() && (#[trigger] before[j]).0@ == q;
                        assert(ps@[j].0@ == q);
                    }
                }
                assert forall|j: int| 0 <= j < ps@.len() implies (#[trigger] ps@[j]).1 == proposed(
                    t,
                    ps@[j].0@,
                ) && ps@[j].1 > 0 by {
                    if j != k {
                        assert(ps@[j] == before[j]);
                        assert(before[j].0@ != before[k as int].0@);
                    }
                }
            },
            None => {
                assert(proposed(s, p@) == 0);
                ps.push((core[i].proposer.clone(), 1));
                assert forall|q: Seq<char>| #[trigger] proposed(t, q) > 0 implies exists|j: int|
                    0 <= j < ps@.len() && (#[trigger] ps@[j]).0@ == q by {
                    if q == p@ {
                        assert(ps@[before.len() as int].0@ == q);
                    } else {
                        assert(proposed(s, q) > 0);
                        let j = choose|j: int| 0 <= j < before.len() && (#[trigger] before[j]).0@ == q;
                        assert(ps@[j].0@ == q);
                    }
                }
                assert forall|j: int| 0 <= j < ps@.len() implies (#[trigger] ps@[j]).1 == proposed(
                    t,
                    ps@[j].0@,
                ) && ps@[j].1 > 0 by {
                    if j < before.len() {
                        assert(ps@[j] == before[j]);
                    }
                }
            },
        }
    }
    assert(core@.take(core@.len() as int) =~= core@);
    ps
}

/// The three who proposed most blocks of a window.
pub fn proposers(core: &VecDeque<Core>) -> (r: Vec<(String, usize)>)
    ensures
        top_proposers(core@, r@),
{
    let ps = count_proposers(core);
    let mut keys: Vec<i128> = Vec::new();
    for i in 0..ps.len()
        invariant
            keys@.len() == i,
            forall|j: int| 0 <= j < i ==> #[trigger] keys@[j] == -(ps@[j].1 as int),
    {
        keys.push(-(ps[i].1 as i128));
    }
    let ghost ks = ints(keys@);
    let p = stable_order(&keys);
    let m: usize = if ps.len() < 3 {
        ps.len()
    } else {
        3
    };
    let mut top: Vec<(String, usize)> = Vec::new();
    for i in 0..m
        invariant
            m <= p@.len() == ps@.len(),
            is_order(ks, p@),
            ks.len() == ps@.len(),
            top@.len() == i,
            forall|j: int|
                0 <= j < i ==> (#[trigger] top@[j]).0 == ps@[p@[j] as int].0 && top@[j].1
                    == ps@[p@[j] as int].1,
    {
        let e = &ps[p[i]];
        top.push((e.0.clone(), e.1));
    }
    proof {
        let s = core@;
        assert forall|i: int, j: int| 0 <= i < j < top@.len() implies (#[trigger] top@[i]).0@ != (
        #[trigger] top@[j]).0@ && top@[i].1 >= top@[j].1 by {
            assert(precedes(ks, p@[i] as int, p@[j] as int));
            if p@[i] < p@[j] {
                assert(ps@[p@[i] as int].0@ != ps@[p@[j] as int].0@);
            } else {
                assert(ps@[p@[j] as int].0@ != ps@[p@[i] as int].0@);
            }
        }
        assert forall|q: Seq<char>, i: int|
            (forall|j: int| 0 <= j < top@.len() ==> (#[trigger] top@[j]).0@ != q) && 0 <= i
                < top@.len() implies #[trigger] proposed(s, q) <= (#[trigger] top@[i]).1 by {
            if proposed(s, q) > 0 {
                let x = choose|x: int| 0 <= x < ps@.len() && (#[trigger] ps@[x]).0@ == q;
                lemma_order_covers(ks, p@, 0, ks.len() as int, x);
                let k = choose|k: int| 0 <= k < p@.len() && #[trigger] p@[k] == x;
                if k < top@.len() {
                    assert(top@[k].0@ == q);
                }
                assert(precedes(ks, p@[i] as int, p@[k] as int));
            }
        }
        assert forall|q: Seq<char>| top@.len() < 3 && #[trigger] proposed(s, q) > 0 implies exists|
            j: int,
        |
            0 <= j < top@.len() && (#[trigger] top@[j]).0@ == q by {
            let x = choose|x: int| 0 <= x < ps@.len() && (#[trigger] ps@[x]).0@ == q;
            lemma_order_covers(ks, p@, 0, ks.len() as int, x);
            let k = choose|k: int| 0 <= k < p@.len() && #[trigger] p@[k] == x;
            assert(top@[k].0@ == q);
        }
    }
    top
}

// ---- EVM blocks ----

/// The big blocks of a window, or the small ones.
pub open spec fn sized(s: Seq<Evm>, big: bool) -> Seq<Evm>
    decreases s.len(),
{
    if s.len() == 0 {
        Seq::empty()
    } else if s.last().big == big {
        sized(s.drop_last(), big).push(s.last())
    } else {
        sized(s.drop_last(), big)
    }
}

/// The times between the blocks of a window that is listed newest first. A pair whose clock
/// runs backwards has none.
pub open spec fn evm_dts(s: Seq<Evm>) -> Seq<u64>
    decreases s.len(),
{
    if s.len() < 2 {
        Seq::empty()
    } else {
        let newer = s[s.len() - 2];
        let older = s[s.len() - 1];
        let rest = evm_dts(s.drop_last());
        if newer.ts >= older.ts {
            rest.push((newer.ts - older.ts) as u64)
        } else {
            rest
        }
    }
}

/// The gas that each block used over its limit.
pub open spec fn utils(s: Seq<Evm>) -> Seq<Option<Ratio>> {
    s.map_values(|b: Evm| ratio_of(b.gas_used as nat, b.gas_limit as nat))
}

/// Sums over EVM blocks.
pub ghost struct EvmSums {
    pub txs: nat,
    pub reverted: nat,
    pub sys: nat,
}

/// What the blocks of a window hold together.
pub open spec fn evm_sums(s: Seq<Evm>) -> EvmSums
    decreases s.len(),
{
    if s.len() == 0 {
        EvmSums { txs: 0, reverted: 0, sys: 0 }
    } else {
        let rest = evm_sums(s.drop_last());
        let b = s.last();
        EvmSums {
            txs: rest.txs + b.txs as nat,
            reverted: rest.reverted + b.reverted as nat,
            sys: rest.sys + b.sys as nat,
        }
    }
}

/// How often the blocks of a window call CoreWriter with an action of the slot.
pub open spec fn slot_sum(s: Seq<Evm>, slot: int) -> nat
    decreases s.len(),
{
    if s.len() == 0 {
        0
    } else {
        slot_sum(s.drop_last(), slot) + s.last().cw@[slot] as nat
    }
}

/// What is gathered from the small blocks of a window.
struct Small {
    dts: Vec<u64>,
    utils: Vec<Option<Ratio>>,
    base_fee: u64,
    txs: u128,
    reverted: u128,
}

fn small_blocks(evm: &VecDeque<Evm>) -> (r: Small)
    ensures
        r.dts@ == evm_dts(sized(evm@, false)),
        r.utils@ == utils(sized(evm@, false)),
        r.base_fee == (if sized(evm@, false).len() > 0 {
            sized(evm@, false)[0].base_fee
        } else {
            0
        }),
        r.txs == evm_sums(sized(evm@, false)).txs,
        r.reverted == evm_sums(sized(evm@, false)).reverted,
{
    let mut dts: Vec<u64> = Vec::new();
    let mut us: Vec<Option<Ratio>> = Vec::new();
    let mut base_fee: u64 = 0;
    let mut txs: u128 = 0;
    let mut reverted: u128 = 0;
    let mut newer_ts: u64 = 0;
    assert(evm@.take(0) =~= Seq::empty());
    assert(utils(Seq::empty()) =~= Seq::empty());
    for i in 0..evm.len()
        invariant
            ({
                let small = sized(evm@.take(i as int), false);
                &&& dts@ == evm_dts(small)
                &&& us@ == utils(small)
                &&& base_fee == (if small.len() > 0 {
                    small[0].base_fee
                } else {
                    0
                })
                &&& txs == evm_sums(small).txs
                &&& reverted == evm_sums(small).reverted
                &&& small.len() > 0 ==> newer_ts == small.last().ts
            }),
            txs <= i * 0xffff_ffff_ffff_ffff,
            reverted <= i * 0xffff_ffff_ffff_ffff,
    {
        let ghost small = sized(evm@.take(i as int), false);
        assert(evm@.take(i + 1).drop_last() =~= evm@.take(i as int));
        let b = &evm[i];
        if !b.big {
            let ghost next = small.push(*b);
            assert(next.drop_last() =~= small);
            if us.len() > 0 {
                if newer_ts >= b.ts {
                    dts.push(newer_ts - b.ts);
                }
            } else {
                base_fee = b.base_fee;
            }
            us.push(ratio(b.gas_used as u128, b.gas_limit as u128));
            assert(us@ =~= utils(next));
            txs = txs + b.txs as u128;
            reverted = reverted + b.reverted as u128;
            newer_ts = b.ts;
        }
    }
    assert(evm@.take(evm@.len() as int) =~= evm@);
    Small { dts, utils: us, base_fee, txs, reverted }
}

fn first_big_util(evm: &VecDeque<Evm>) -> (r: Option<Ratio>)
    ensures
        r == (if sized(evm@, true).len() > 0 {
            utils(sized(evm@, true))[0]
        } else {
            None
        }),
{
    assert(evm@.take(0) =~= Seq::empty());
    for i in 0..evm.len()
        invariant
            sized(evm@.take(i as int), true).len() == 0,
    {
        assert(evm@.take(i + 1).drop_last() =~= evm@.take(i as int));
        let b = &evm[i];
        if b.big {
            assert(sized(evm@.take(i + 1), true)[0] == *b);
            proof {
                lemma_sized_keeps(evm@, i + 1, true);
            }
            return ratio(b.gas_used as u128, b.gas_limit as u128);
        }
    }
    assert(evm@.take(evm@.len() as int) =~= evm@);
    None
}

proof fn lemma_sized_keeps(s: Seq<Evm>, n: int, big: bool)
    requires
        0 <= n <= s.len(),
        sized(s.take(n), big).len() > 0,
    ensures
        sized(s, big).len() > 0,
        sized(s, big)[0] == sized(s.take(n), big)[0],
    decreases s.len(),
{
    if n < s.len() {
        assert(s.drop_last().take(n) =~= s.take(n));
        lemma_sized_keeps(s.drop_last(), n, big);
    } else {
        assert(s.take(n) =~= s);
    }
}

fn slot_sums(evm: &VecDeque<Evm>) -> (r: [u128; 6])
    ensures
        forall|k: int| 0 <= k < 6 ==> #[trigger] r@[k] == slot_sum(evm@, k),
{
    let mut r: [u128; 6] = [0, 0, 0, 0, 0, 0];
    for k in 0..6usize
        invariant
            forall|j: int| 0 <= j < k ==> #[trigger] r@[j] == slot_sum(evm@, j),
    {
        let mut n: u128 = 0;
        assert(evm@.take(0) =~= Seq::empty());
        for i in 0..evm.len()
            invariant
                k < 6,
                n == slot_sum(evm@.take(i as int), k as int),
                n <= i * 0xffff_ffff_ffff_ffff,
        {
            assert(evm@.take(i + 1).drop_last() =~= evm@.take(i as int));
            n = n + evm[i].cw[k] as u128;
        }
        assert(evm@.take(evm@.len() as int) =~= evm@);
        r[k] = n;
    }
    r
}

fn sys_sum(evm: &VecDeque<Evm>) -> (r: u128)
    ensures
        r == evm_sums(evm@).sys,
{
    let mut n: u128 = 0;
    assert(evm@.take(0) =~= Seq::empty());
    for i in 0..evm.len()
        invariant
            n == evm_sums(evm@.take(i as int)).sys,
            n <= i * 0xffff_ffff_ffff_ffff,
    {
        assert(evm@.take(i + 1).drop_last() =~= evm@.take(i as int));
        n = n + evm[i].sys as u128;
    }
    assert(evm@.take(evm@.len() as int) =~= evm@);
    n
}

// ---- all together ----

/// Whether `r` says what there is to say of the windows `core` and `evm`, listed newest
/// first, at `now`.
pub open spec fn rolls(r: Rolling, core: Seq<Core>, evm: Seq<Evm>, now: u64) -> bool {
    let dts = core_dts(core);
    let c = core_sums(core);
    let small = sized(evm, false);
    let big = sized(evm, true);
    &&& r.core_dt_p50 == quantile(dts, 50)
    &&& r.core_dt_p95 == quantile(dts, 95)
    &&& r.core_dt_max == most(dts)
    &&& r.orders_per_ms == ratio_of(c.orders, sum(dts))
    &&& r.taker_share == ratio_of(c.ioc, c.orders)
    &&& r.cancel_ratio == ratio_of(c.cancels, c.orders)
    &&& r.err_rate == ratio_of(c.errs, c.txs)
    &&& top_proposers(core, r.proposers@)
    &&& r.evm_util@ == utils(small)
    &&& r.evm_dts_p50 == quantile(evm_dts(small), 50)
    &&& r.base_fee == (if small.len() > 0 {
        small[0].base_fee
    } else {
        0
    })
    &&& r.revert_rate == ratio_of(evm_sums(small).reverted, evm_sums(small).txs)
    &&& forall|k: int| 0 <= k < 6 ==> #[trigger] r.cw@[k] == slot_sum(evm, k)
    &&& r.sys == evm_sums(evm).sys
    &&& r.big_util == (if big.len() > 0 {
        utils(big)[0]
    } else {
        None
    })
    &&& r.next_big_s == to_minute(now)
}

/// The aggregate view over the retained windows, listed newest first, at `now` in seconds.
pub fn rolling(core: &VecDeque<Core>, evm: &VecDeque<Evm>, now: u64) -> (r: Rolling)
    ensures
        rolls(r, core@, evm@, now),
{
    let dts = core_dts_of(core);
    let c = core_totals(core);
    let mut small = small_blocks(evm);
    Rolling {
        core_dt_p50: percentile(&mut copy_of(&dts), 50),
        core_dt_p95: percentile(&mut copy_of(&dts), 95),
        core_dt_max: most_of(&dts),
        orders_per_ms: ratio(c.orders, sum_of(&dts)),
        taker_share: ratio(c.ioc, c.orders),
        cancel_ratio: ratio(c.cancels, c.orders),
        err_rate: ratio(c.errs, c.txs),
        proposers: proposers(core),
        evm_util: small.utils,
        evm_dts_p50: percentile(&mut small.dts, 50),
        base_fee: small.base_fee,
        revert_rate: ratio(small.reverted, small.txs),
        cw: slot_sums(evm),
        sys: sys_sum(evm),
        big_util: first_big_util(evm),
        next_big_s: next_big(now),
    }
}

/// The CoreWriter calls of the first `n` slots as text: the name and the count of each slot
/// that has any, with a blank between.
pub open spec fn listed_calls(cw: Seq<u128>, n: int) -> Seq<char>
    decreases n,
{
    if n <= 0 {
        Seq::empty()
    } else {
        let before = listed_calls(cw, n - 1);
        let entry = slot_name(n - 1) + ":"@ + decimal(cw[n - 1] as nat);
        if cw[n - 1] == 0 {
            before
        } else if before.len() == 0 {
            entry
        } else {
            before + " "@ + entry
        }
    }
}

/// The histogram of CoreWriter calls as text; `none` where there are none.
pub fn calls_text(cw: &[u128; 6]) -> (r: String)
    ensures
        r@ == (if listed_calls(cw@, 6).len() == 0 {
            "none"@
        } else {
            listed_calls(cw@, 6)
        }),
{
    let mut r = String::new();
    for i in 0..6usize
        invariant
            r@ == listed_calls(cw@, i as int),
    {
        if cw[i] > 0 {
            if !r.as_str().is_empty() {
                r.append(" ");
            }
            r.append(cw_name(i));
            r.append(":");
            r.append(long_decimal_string(cw[i]).as_str());
            assert(r@ =~= listed_calls(cw@, i + 1));
        }
    }
    if r.as_str().is_empty() {
        "none".to_owned()
    } else {
        r
    }
}

// ---- laws ----

/// In a run of consecutive core blocks whose clock does not run backwards, every pair of
/// neighbours has its time, and the times add up to the time from the oldest to the newest.
pub proof fn law_times_of_a_run_add_up(s: Seq<Core>)
    requires
        s.len() > 0,
        forall|i: int|
            0 <= i < s.len() - 1 ==> (#[trigger] s[i]).height == s[i + 1].height + 1
                && s[i].ms >= s[i + 1].ms,
    ensures
        core_dts(s).len() == s.len() - 1,
        sum(core_dts(s)) == s[0].ms - s.last().ms,
    decreases s.len(),
{
    if s.len() >= 2 {
        let d = s.drop_last();
        assert forall|i: int| 0 <= i < d.len() - 1 implies (#[trigger] d[i]).height
            == d[i + 1].height + 1 && d[i].ms >= d[i + 1].ms by {
            assert(s[i].height == s[i + 1].height + 1);
        }
        law_times_of_a_run_add_up(d);
        let n = s.len() - 2;
        assert(s[n].height == s[n + 1].height + 1);
        assert(core_dts(s).drop_last() =~= core_dts(d));
    }
}

/// A pair of blocks across a skip contributes no time.
pub proof fn law_no_time_across_a_skip(s: Seq<Core>, b: Core)
    requires
        s.len() > 0,
        s.last().height != b.height + 1,
    ensures
        core_dts(s.push(b)) == core_dts(s),
{
    assert(s.push(b).drop_last() =~= s);
}

proof fn lemma_most(v: Seq<u64>, x: u64)
    requires
        v.contains(x),
    ensures
        x <= most(v),
    decreases v.len(),
{
    let i = choose|i: int| 0 <= i < v.len() && v[i] == x;
    if i < v.len() - 1 {
        assert(v.drop_last()[i] == x);
        lemma_most(v.drop_last(), x);
    }
}

/// The median block time is at most the 95th percentile, and that is at most the largest.
pub proof fn law_block_times_are_ordered(r: Rolling, core: Seq<Core>, evm: Seq<Evm>, now: u64)
    requires
        rolls(r, core, evm, now),
        core_dts(core).len() <= usize::MAX,
    ensures
        r.core_dt_p50 <= r.core_dt_p95 <= r.core_dt_max,
{
    let dts = core_dts(core);
    law_quantiles_ascend(dts, 50, 95);
    law_quantiles_ascend(dts, 95, 95);
    if dts.len() > 0 {
        lemma_most(dts, quantile(dts, 95));
    }
}

/// Takers hold at most all of the orders, where no block has more of their orders than
/// orders at all.
pub proof fn law_taker_share_is_at_most_one(core: Seq<Core>)
    requires
        forall|i: int| 0 <= i < core.len() ==> (#[trigger] core[i]).ioc <= core[i].orders,
    ensures
        core_sums(core).ioc <= core_sums(core).orders,
    decreases core.len(),
{
    if core.len() > 0 {
        let d = core.drop_last();
        assert forall|i: int| 0 <= i < d.len() implies (#[trigger] d[i]).ioc <= d[i].orders by {
            assert(core[i].ioc <= core[i].orders);
        }
        law_taker_share_is_at_most_one(d);
        assert(core[core.len() - 1].ioc <= core[core.len() - 1].orders);
    }
}

/// The blocks that the first `n` of the listed proposers proposed.
pub open spec fn listed_blocks(top: Seq<(String, usize)>, n: int) -> nat
    decreases n,
{
    if n <= 0 {
        0
    } else {
        listed_blocks(top, n - 1) + top[n - 1].1 as nat
    }
}

spec fn proposed_by_all(s: Seq<Core>, top: Seq<(String, usize)>, n: int) -> nat
    decreases n,
{
    if n <= 0 {
        0
    } else {
        proposed_by_all(s, top, n - 1) + proposed(s, top[n - 1].0@)
    }
}

/// One more block belongs to at most one of distinct proposers.
proof fn lemma_one_more_block(s: Seq<Core>, top: Seq<(String, usize)>, n: int)
    requires
        s.len() > 0,
        0 <= n <= top.len(),
        forall|i: int, j: int|
            0 <= i < j < top.len() ==> (#[trigger] top[i]).0@ != (#[trigger] top[j]).0@,
    ensures
        proposed_by_all(s, top, n) == proposed_by_all(s.drop_last(), top, n) + (if exists|i: int|
            0 <= i < n && (#[trigger] top[i]).0@ == s.last().proposer@ {
            1nat
        } else {
            0nat
        }),
    decreases n,
{
    if n > 0 {
        lemma_one_more_block(s, top, n - 1);
        if top[n - 1].0@ == s.last().proposer@ {
            assert(forall|i: int| 0 <= i < n - 1 ==> (#[trigger] top[i]).0@ != top[n - 1].0@);
        }
    }
}

proof fn lemma_proposed_by_all(s: Seq<Core>, top: Seq<(String, usize)>, n: int)
    requires
        0 <= n <= top.len(),
        forall|i: int, j: int|
            0 <= i < j < top.len() ==> (#[trigger] top[i]).0@ != (#[trigger] top[j]).0@,
    ensures
        proposed_by_all(s, top, n) <= s.len(),
    decreases s.len(), n,
{
    if s.len() > 0 {
        lemma_proposed_by_all(s.drop_last(), top, n);
        lemma_one_more_block(s, top, n);
    } else if n > 0 {
        lemma_proposed_by_all(s, top, n - 1);
    }
}

proof fn lemma_listed_blocks(s: Seq<Core>, top: Seq<(String, usize)>, n: int)
    requires
        0 <= n <= top.len(),
        top_proposers(s, top),
    ensures
        listed_blocks(top, n) == proposed_by_all(s, top, n),
    decreases n,
{
    if n > 0 {
        lemma_listed_blocks(s, top, n - 1);
        assert(top[n - 1].1 == proposed(s, top[n - 1].0@));
    }
}

/// The listed proposers' blocks are at most all blocks of the window.
pub proof fn law_proposer_shares_fit(core: Seq<Core>, top: Seq<(String, usize)>)
    requires
        top_proposers(core, top),
    ensures
        listed_blocks(top, top.len() as int) <= core.len(),
{
    lemma_listed_blocks(core, top, top.len() as int);
    lemma_proposed_by_all(core, top, top.len() as int);
}

/// The sum of what `f` gives of each.
pub open spec fn total_of<T>(s: Seq<T>, f: spec_fn(T) -> int) -> int {
    s.fold_left(0int, |n: int, x: T| n + f(x))
}

/// The sum over two sequences is that over the one and that over the other.
pub proof fn lemma_total_adds<T>(s: Seq<T>, t: Seq<T>, f: spec_fn(T) -> int)
    ensures
        total_of(s + t, f) == total_of(s, f) + total_of(t, f),
    decreases t.len(),
{
    if t.len() == 0 {
        assert(s + t =~= s);
    } else {
        assert((s + t).drop_last() =~= s + t.drop_last());
        lemma_total_adds(s, t.drop_last(), f);
    }
}

proof fn lemma_total_fits<T>(s: Seq<T>, f: spec_fn(T) -> int)
    requires
        forall|i: int| 0 <= i < s.len() ==> 0 <= f(#[trigger] s[i]) <= u64::MAX,
        s.len() <= u64::MAX,
    ensures
        0 <= total_of(s, f) <= s.len() * u64::MAX,
        0 <= total_of(s, f) <= u128::MAX,
    decreases s.len(),
{
    if s.len() > 0 {
        let rest = s.drop_last();
        assert forall|i: int| 0 <= i < rest.len() implies 0 <= f(#[trigger] rest[i])
            <= u64::MAX by {
            assert(rest[i] == s[i]);
        }
        lemma_total_fits(rest, f);
        assert(f(s[s.len() - 1]) <= u64::MAX);
    }
    assert(s.len() * u64::MAX <= u64::MAX * u64::MAX) by (nonlinear_arith)
        requires
            s.len() <= u64::MAX,
    ;
}

proof fn lemma_core_sums(s: Seq<Core>)
    ensures
        core_sums(s).orders == total_of(s, |b: Core| b.orders as int),
        core_sums(s).ioc == total_of(s, |b: Core| b.ioc as int),
        core_sums(s).cancels == total_of(s, |b: Core| b.cancels as int),
        core_sums(s).txs == total_of(s, |b: Core| b.txs as int),
        core_sums(s).errs == total_of(s, |b: Core| b.errs as int),
    decreases s.len(),
{
    if s.len() > 0 {
        lemma_core_sums(s.drop_last());
    }
}

/// Core blocks add up: of one block the sums are its own counts, and of two windows together
/// they are those of the one and of the other.
pub proof fn law_core_blocks_add_up(s: Seq<Core>, t: Seq<Core>, b: Core)
    ensures
        core_sums(seq![b]) == (CoreSums {
            orders: b.orders as nat,
            ioc: b.ioc as nat,
            cancels: b.cancels as nat,
            txs: b.txs as nat,
            errs: b.errs as nat,
        }),
        core_sums(s + t).orders == core_sums(s).orders + core_sums(t).orders,
        core_sums(s + t).ioc == core_sums(s).ioc + core_sums(t).ioc,
        core_sums(s + t).cancels == core_sums(s).cancels + core_sums(t).cancels,
        core_sums(s + t).txs == core_sums(s).txs + core_sums(t).txs,
        core_sums(s + t).errs == core_sums(s).errs + core_sums(t).errs,
{
    assert(seq![b].drop_last() =~= Seq::empty());
    reveal_with_fuel(core_sums, 2);
    lemma_core_sums(s);
    lemma_core_sums(t);
    lemma_core_sums(s + t);
    lemma_total_adds(s, t, |b: Core| b.orders as int);
    lemma_total_adds(s, t, |b: Core| b.ioc as int);
    lemma_total_adds(s, t, |b: Core| b.cancels as int);
    lemma_total_adds(s, t, |b: Core| b.txs as int);
    lemma_total_adds(s, t, |b: Core| b.errs as int);
}

/// The ratio of two totals: none over zero.
pub open spec fn is_ratio(r: Option<Ratio>, num: int, den: int) -> bool {
    match r {
        Some(q) => q.num == num && q.den == den && den != 0,
        None => den == 0,
    }
}

/// The rates of a window are of its blocks' own counts, added up: takers' orders over all
/// orders, cancels over orders, and rejected transactions over all transactions.
pub proof fn law_rates_are_of_all_blocks(
    core: VecDeque<Core>,
    evm: VecDeque<Evm>,
    now: u64,
    r: Rolling,
)
    requires
        call_ensures(rolling, (&core, &evm, now), r),
        core@.len() <= u64::MAX,
    ensures
        ({
            let orders = total_of(core@, |b: Core| b.orders as int);
            &&& is_ratio(r.taker_share, total_of(core@, |b: Core| b.ioc as int), orders)
            &&& is_ratio(r.cancel_ratio, total_of(core@, |b: Core| b.cancels as int), orders)
            &&& is_ratio(
                r.err_rate,
                total_of(core@, |b: Core| b.errs as int),
                total_of(core@, |b: Core| b.txs as int),
            )
        }),
{
    lemma_core_sums(core@);
    lemma_total_fits(core@, |b: Core| b.orders as int);
    lemma_total_fits(core@, |b: Core| b.ioc as int);
    lemma_total_fits(core@, |b: Core| b.cancels as int);
    lemma_total_fits(core@, |b: Core| b.txs as int);
    lemma_total_fits(core@, |b: Core| b.errs as int);
}

/// The neighbours of a window that is listed newest first: the newer and the older of each pair.
pub open spec fn neighbours<T>(s: Seq<T>) -> Seq<(T, T)> {
    Seq::new(
        if s.len() == 0 {
            0
        } else {
            (s.len() - 1) as nat
        },
        |i: int| (s[i], s[i + 1]),
    )
}

/// The time from the older core block to the newer, in milliseconds, where the one follows on
/// the other and the clock does not run backwards.
pub open spec fn core_time(w: (Core, Core)) -> Option<u64> {
    if w.0.height == w.1.height + 1 && w.0.ms >= w.1.ms {
        Some((w.0.ms - w.1.ms) as u64)
    } else {
        None
    }
}

/// The time from the older EVM block to the newer, in seconds, where the clock does not run
/// backwards.
pub open spec fn evm_time(w: (Evm, Evm)) -> Option<u64> {
    if w.0.ts >= w.1.ts {
        Some((w.0.ts - w.1.ts) as u64)
    } else {
        None
    }
}

/// The block times of a window are those of its neighbours that have one, in order.
pub proof fn law_block_times_are_of_neighbours(s: Seq<Core>, e: Seq<Evm>)
    ensures
        core_dts(s) == neighbours(s).filter_map(|w: (Core, Core)| core_time(w)),
        evm_dts(e) == neighbours(e).filter_map(|w: (Evm, Evm)| evm_time(w)),
    decreases s.len() + e.len(),
{
    let f = |w: (Core, Core)| core_time(w);
    let g = |w: (Evm, Evm)| evm_time(w);
    if s.len() >= 2 {
        law_block_times_are_of_neighbours(s.drop_last(), Seq::empty());
        let ws = neighbours(s);
        assert(ws.drop_last() =~= neighbours(s.drop_last()));
        assert(ws.last() == (s[s.len() - 2], s[s.len() - 1]));
        assert(core_dts(s) =~= ws.filter_map(f));
    } else {
        assert(neighbours(s).filter_map(f) =~= Seq::empty());
    }
    if e.len() >= 2 {
        law_block_times_are_of_neighbours(Seq::empty(), e.drop_last());
        let ws = neighbours(e);
        assert(ws.drop_last() =~= neighbours(e.drop_last()));
        assert(ws.last() == (e[e.len() - 2], e[e.len() - 1]));
        assert(evm_dts(e) =~= ws.filter_map(g));
    } else {
        assert(neighbours(e).filter_map(g) =~= Seq::empty());
    }
}

proof fn lemma_most_is_one(v: Seq<u64>)
    ensures
        v.len() == 0 ==> most(v) == 0,
        v.len() > 0 ==> v.contains(most(v)),
    decreases v.len(),
{
    if v.len() > 0 {
        let rest = v.drop_last();
        lemma_most_is_one(rest);
        assert(v[v.len() - 1] == v.last());
        if rest.len() > 0 {
            let i = choose|i: int| 0 <= i < rest.len() && rest[i] == most(rest);
            assert(v[i] == most(rest));
        }
    }
}

proof fn lemma_sum(v: Seq<u64>)
    ensures
        sum(v) == total_of(v, |x: u64| x as int),
    decreases v.len(),
{
    if v.len() > 0 {
        lemma_sum(v.drop_last());
    }
}

/// What is said of the core blocks' times: their median, their 95th percentile and the largest,
/// and all orders of the window over all the time that its neighbours took.
pub proof fn law_core_times_are_summed_up(
    core: VecDeque<Core>,
    evm: VecDeque<Evm>,
    now: u64,
    r: Rolling,
    dts: Seq<u64>,
    i: int,
)
    requires
        call_ensures(rolling, (&core, &evm, now), r),
        core@.len() <= u64::MAX,
        dts == neighbours(core@).filter_map(|w: (Core, Core)| core_time(w)),
    ensures
        is_ratio(
            r.orders_per_ms,
            total_of(core@, |b: Core| b.orders as int),
            total_of(dts, |x: u64| x as int),
        ),
        dts.len() == 0 ==> r.core_dt_p50 == 0 && r.core_dt_p95 == 0 && r.core_dt_max == 0,
        dts.len() > 0 ==> dts.contains(r.core_dt_max),
        0 <= i < dts.len() ==> dts[i] <= r.core_dt_max,
        0 <= i < dts.len() && 200 * i - 100 <= 2 * (dts.len() - 1) * 50 < 200 * i + 100
            ==> r.core_dt_p50 == ascending(dts)[i],
        0 <= i < dts.len() && 200 * i - 100 <= 2 * (dts.len() - 1) * 95 < 200 * i + 100
            ==> r.core_dt_p95 == ascending(dts)[i],
{
    law_block_times_are_of_neighbours(core@, Seq::empty());
    lemma_core_sums(core@);
    lemma_sum(dts);
    lemma_filter_map_len(neighbours(core@), |w: (Core, Core)| core_time(w));
    lemma_total_fits(core@, |b: Core| b.orders as int);
    lemma_total_fits(dts, |x: u64| x as int);
    lemma_most_is_one(dts);
    if 0 <= i < dts.len() {
        lemma_most(dts, dts[i]);
    }
    if dts.len() > 0 {
        law_ranks_are_nearest(dts.len(), 50, i);
        law_ranks_are_nearest(dts.len(), 95, i);
    }
}

proof fn lemma_filter_map_len<T, B>(s: Seq<T>, f: spec_fn(T) -> Option<B>)
    ensures
        s.filter_map(f).len() <= s.len(),
    decreases s.len(),
{
    if s.len() > 0 {
        lemma_filter_map_len(s.drop_last(), f);
    }
}

proof fn lemma_sized(s: Seq<Evm>, big: bool)
    ensures
        sized(s, big) == s.filter(|b: Evm| b.big == big),
        sized(s, big).len() <= s.len(),
    decreases s.len(),
{
    reveal(Seq::filter);
    if s.len() > 0 {
        lemma_sized(s.drop_last(), big);
    } else {
        assert(sized(s, big) =~= s.filter(|b: Evm| b.big == big));
    }
}

proof fn lemma_evm_sums(s: Seq<Evm>, k: int)
    ensures
        evm_sums(s).txs == total_of(s, |b: Evm| b.txs as int),
        evm_sums(s).reverted == total_of(s, |b: Evm| b.reverted as int),
        evm_sums(s).sys == total_of(s, |b: Evm| b.sys as int),
        slot_sum(s, k) == total_of(s, |b: Evm| b.cw@[k] as int),
    decreases s.len(),
{
    if s.len() > 0 {
        lemma_evm_sums(s.drop_last(), k);
    }
}

/// What is said of the EVM blocks: of the small ones the gas that each used over its own limit,
/// the reverted transactions over all, the base fee of the newest and the median time between
/// them; of the big ones the gas that the newest used over its limit; of all of them the
/// CoreWriter calls of each slot and the system transactions.
pub proof fn law_evm_blocks_are_summed_up(
    core: VecDeque<Core>,
    evm: VecDeque<Evm>,
    now: u64,
    r: Rolling,
    small: Seq<Evm>,
    bigs: Seq<Evm>,
    k: int,
    i: int,
)
    requires
        call_ensures(rolling, (&core, &evm, now), r),
        evm@.len() <= u64::MAX,
        small == evm@.filter(|b: Evm| !b.big),
        bigs == evm@.filter(|b: Evm| b.big),
        0 <= k < 6,
    ensures
        r.cw@[k] == total_of(evm@, |b: Evm| b.cw@[k] as int),
        r.sys == total_of(evm@, |b: Evm| b.sys as int),
        is_ratio(
            r.revert_rate,
            total_of(small, |b: Evm| b.reverted as int),
            total_of(small, |b: Evm| b.txs as int),
        ),
        r.evm_util@.len() == small.len(),
        0 <= i < small.len() ==> is_ratio(
            r.evm_util@[i],
            small[i].gas_used as int,
            small[i].gas_limit as int,
        ),
        r.base_fee == if small.len() > 0 {
            small[0].base_fee
        } else {
            0
        },
        bigs.len() == 0 ==> r.big_util is None,
        bigs.len() > 0 ==> is_ratio(
            r.big_util,
            bigs[0].gas_used as int,
            bigs[0].gas_limit as int,
        ),
        ({
            let dts = neighbours(small).filter_map(|w: (Evm, Evm)| evm_time(w));
            &&& dts.len() == 0 ==> r.evm_dts_p50 == 0
            &&& 0 <= i < dts.len() && 200 * i - 100 <= 2 * (dts.len() - 1) * 50 < 200 * i + 100
                ==> r.evm_dts_p50 == ascending(dts)[i]
        }),
        1 <= r.next_big_s <= 60,
        (now + r.next_big_s) % 60 == 0,
{
    lemma_sized(evm@, false);
    lemma_sized(evm@, true);
    assert((|b: Evm| b.big == false) =~= (|b: Evm| !b.big));
    assert((|b: Evm| b.big == true) =~= (|b: Evm| b.big));
    lemma_evm_sums(evm@, k);
    lemma_evm_sums(small, k);
    lemma_total_fits(small, |b: Evm| b.txs as int);
    lemma_total_fits(small, |b: Evm| b.reverted as int);
    law_block_times_are_of_neighbours(Seq::empty(), small);
    let dts = evm_dts(small);
    if dts.len() > 0 {
        law_ranks_are_nearest(dts.len(), 50, i);
    }
    law_countdown_ends_on_the_next_minute(now);
    let c = r.cw@[k];
    if bigs.len() > 0 {
        assert(utils(bigs)[0] == ratio_of(bigs[0].gas_used as nat, bigs[0].gas_limit as nat));
    }
    if 0 <= i < small.len() {
        assert(utils(small)[i] == ratio_of(small[i].gas_used as nat, small[i].gas_limit as nat));
    }
}

proof fn lemma_proposed(s: Seq<Core>, p: Seq<char>)
    ensures
        proposed(s, p) == s.filter(|b: Core| b.proposer@ == p).len(),
    decreases s.len(),
{
    reveal(Seq::filter);
    if s.len() > 0 {
        lemma_proposed(s.drop_last(), p);
    }
}

/// The listed proposers are the three who proposed most blocks of the window, or all there are:
/// each is listed once, with as many blocks as it proposed, most first; and who is not listed
/// proposed none where fewer than three are listed, and never more than one who is.
pub proof fn law_proposers_are_listed_by_their_blocks(
    core: VecDeque<Core>,
    r: Vec<(String, usize)>,
    i: int,
    j: int,
    p: Seq<char>,
)
    requires
        call_ensures(proposers, (&core,), r),
        0 <= i < j < r@.len(),
    ensures
        r@.len() <= 3,
        r@[i].1 >= r@[j].1 > 0,
        r@[i].0@ != r@[j].0@,
        p == r@[j].0@ ==> r@[j].1 == core@.filter(|b: Core| b.proposer@ == p).len(),
        p == r@[i].0@ ==> r@[i].1 == core@.filter(|b: Core| b.proposer@ == p).len(),
{
    lemma_proposed(core@, p);
    assert(r@[i].1 == proposed(core@, r@[i].0@));
    assert(r@[j].1 == proposed(core@, r@[j].0@));
}

/// Nobody who proposed more than someone who is listed is left out.
pub proof fn law_no_busier_proposer_is_left_out(
    core: VecDeque<Core>,
    r: Vec<(String, usize)>,
    p: Seq<char>,
    i: int,
)
    requires
        call_ensures(proposers, (&core,), r),
        forall|j: int| 0 <= j < r@.len() ==> (#[trigger] r@[j]).0@ != p,
    ensures
        r@.len() < 3 ==> core@.filter(|b: Core| b.proposer@ == p).len() == 0,
        0 <= i < r@.len() ==> core@.filter(|b: Core| b.proposer@ == p).len() <= r@[i].1,
{
    lemma_proposed(core@, p);
    if 0 <= i < r@.len() {
        assert(proposed(core@, p) <= r@[i].1);
    }
}

/// Who is listed is listed with its own blocks, whether others are or not; and the aggregate view
/// lists as `proposers` does.
pub proof fn law_a_listed_proposer_has_its_blocks(
    core: VecDeque<Core>,
    evm: VecDeque<Evm>,
    now: u64,
    r: Rolling,
    i: int,
    p: Seq<char>,
)
    requires
        call_ensures(rolling, (&core, &evm, now), r),
        0 <= i < r.proposers@.len(),
        p == r.proposers@[i].0@,
    ensures
        r.proposers@.len() <= 3,
        r.proposers@[i].1 == core@.filter(|b: Core| b.proposer@ == p).len(),
        r.proposers@[i].1 > 0,
{
    lemma_proposed(core@, p);
    assert(r.proposers@[i].1 == proposed(core@, p));
}

/// The calls that are listed are those of the slots that have any: with one more slot the text
/// stays where it has none, and else the slot's name and count are added behind a blank.
pub proof fn law_calls_are_listed_by_slot(cw: [u128; 6], r: String, k: int)
    requires
        call_ensures(calls_text, (&cw,), r),
        0 <= k < 6,
    ensures
        (forall|j: int| 0 <= j < 6 ==> #[trigger] cw@[j] == 0) ==> r@ == "none"@,
        (forall|j: int| 0 <= j < 6 && j != k ==> #[trigger] cw@[j] == 0) && cw@[k] > 0 ==> r@
            == slot_name(k) + ":"@ + decimal(cw@[k] as nat),
        (exists|j: int| 0 <= j < k && #[trigger] cw@[j] > 0) && cw@[k] > 0 ==> listed_calls(
            cw@,
            k + 1,
        ) == listed_calls(cw@, k) + " "@ + (slot_name(k) + ":"@ + decimal(cw@[k] as nat)),
        (exists|j: int| 0 <= j < 6 && #[trigger] cw@[j] > 0) ==> r@ == listed_calls(cw@, 6),
{
    reveal_strlit(":");
    reveal_strlit(" ");
    lemma_listed_calls(cw@, k, k);
    lemma_listed_calls(cw@, 6, k);
}

proof fn lemma_listed_calls(cw: Seq<u128>, n: int, k: int)
    requires
        0 <= n <= 6,
        0 <= k < 6,
    ensures
        (forall|j: int| 0 <= j < n ==> #[trigger] cw[j] == 0) ==> listed_calls(cw, n)
            == Seq::<char>::empty(),
        (exists|j: int| 0 <= j < n && #[trigger] cw[j] > 0) ==> listed_calls(cw, n).len() > 0,
        (forall|j: int| 0 <= j < n && j != k ==> #[trigger] cw[j] == 0) && cw[k] > 0 && k < n
            ==> listed_calls(cw, n) == slot_name(k) + ":"@ + decimal(cw[k] as nat),
    decreases n,
{
    if n > 0 {
        lemma_listed_calls(cw, n - 1, k);
        reveal_strlit(":");
        let entry = slot_name(n - 1) + ":"@ + decimal(cw[n - 1] as nat);
        assert(entry.len() > 0);
    }
}

/// A ratio is of the two numbers as they are, and none is over zero.
pub proof fn law_ratios_are_of_their_numbers(num: u128, den: u128, r: Option<Ratio>)
    requires
        call_ensures(ratio, (num, den), r),
    ensures
        den == 0 ==> r is None,
        den > 0 ==> r == Some(Ratio { num, den }),
{
}

} // verus!
