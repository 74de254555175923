//! What kind of participant an address is, and how volume divides among the kinds.
use vstd::prelude::*;

use crate::accounts::{
    address_on, addresses, first_seen, lemma_first_seen_covers, lemma_first_seen_distinct, names,
    Acc, Account, Observation, Side, Table,
};
use crate::classifier::Fill;
use vstd::arithmetic::power2::pow2;

use crate::double::{
    is_number, law_constants_are_their_numbers, law_doubles_compare_as_numbers, units, Double, TWO,
    ZERO,
};
use crate::groups::{is_grouping, is_listed, By};
use crate::order::{ints, is_order, lemma_order_covers, order_of, precedes, stable_order};
use crate::text::{decimal, decimal_string};

verus! {

/// A kind of taker.
#[derive(Clone, Copy, Debug, PartialEq, Eq, Structural)]
pub enum Class {
    Informed,
    Natural,
    Twap,
    /// Too few orders to tell.
    Thin,
    /// A cluster, by its place in the table of centroids.
    Cluster(usize),
}

impl Class {
    /// What a class is called.
    pub open spec fn label_of(self) -> Seq<char> {
        match self {
            Class::Informed => "informed"@,
            Class::Natural => "natural"@,
            Class::Twap => "twap"@,
            Class::Thin => "thin"@,
            Class::Cluster(i) => "k"@ + decimal(i as nat),
        }
    }

    /// What the class is called.
    pub fn label(self) -> (r: String)
        ensures
            r@ == self.label_of(),
    {
        match self {
            Class::Informed => "informed".to_owned(),
            Class::Natural => "natural".to_owned(),
            Class::Twap => "twap".to_owned(),
            Class::Thin => "thin".to_owned(),
            Class::Cluster(i) => {
                let mut s = "k".to_owned();
                s.append(decimal_string(i as u64).as_str());
                s
            },
        }
    }
}

/// The mean of an account's markouts at one second and its t-statistic against zero, in
/// double arithmetic: a NaN where there are too few to tell.
#[derive(Clone, Copy, Debug)]
pub struct Evidence {
    pub mean: Double,
    pub tstat: Double,
}

/// The class of a taker: TWAP where more than half of the orders are sub-orders of a TWAP;
/// else thin where there are fewer than `min_fills` orders; else informed where the mean
/// markout at one second is positive and more than two standard errors from zero; else
/// natural.
pub open spec fn rule(n: nat, twap: nat, min_fills: nat, e: Evidence) -> Class {
    if 2 * twap > n {
        Class::Twap
    } else if n < min_fills {
        Class::Thin
    } else if (Double { bits: ZERO }).below(e.mean) && (Double { bits: TWO }).below(e.tstat) {
        Class::Informed
    } else {
        Class::Natural
    }
}

/// Classifies a taker by rule. Direction alone is not enough: a taker with a few orders and
/// one lucky fill has a positive mean and no evidence.
pub fn classify_rule(a: &Acc, min_fills: usize, e: Evidence) -> (r: Class)
    ensures
        r == rule(a.n as nat, a.twap as nat, min_fills as nat, e),
{
    if a.twap > a.n / 2 {
        return Class::Twap;
    }
    if a.n < min_fills {
        return Class::Thin;
    }
    if (Double { bits: ZERO }).lt(e.mean) && (Double { bits: TWO }).lt(e.tstat) {
        Class::Informed
    } else {
        Class::Natural
    }
}

/// Classifies all accounts by rule.
pub fn classify(table: &Table, min_fills: usize, evidence: &Vec<Evidence>) -> (r: Vec<Class>)
    requires
        evidence@.len() == table.accounts@.len(),
    ensures
        r@.len() == table.accounts@.len(),
        forall|i: int|
            0 <= i < r@.len() ==> #[trigger] r@[i] == rule(
                table.accounts@[i].acc.n as nat,
                table.accounts@[i].acc.twap as nat,
                min_fills as nat,
                evidence@[i],
            ),
{
    let mut r: Vec<Class> = Vec::new();
    for i in 0..table.accounts.len()
        invariant
            evidence@.len() == table.accounts@.len(),
            r@.len() == i,
            forall|j: int|
                0 <= j < i ==> #[trigger] r@[j] == rule(
                    table.accounts@[j].acc.n as nat,
                    table.accounts@[j].acc.twap as nat,
                    min_fills as nat,
                    evidence@[j],
                ),
    {
        r.push(classify_rule(&table.accounts[i].acc, min_fills, evidence[i]));
    }
    r
}

// ---- clusters ----

/// The places of the accounts, among the first `n`, with at least `min_fills` observations,
/// in order.
pub open spec fn eligible_among(table: Table, min_fills: usize, n: nat) -> Seq<usize>
    decreases n,
{
    if n == 0 {
        Seq::empty()
    } else if table.accounts@[n - 1].acc.n >= min_fills {
        eligible_among(table, min_fills, (n - 1) as nat).push((n - 1) as usize)
    } else {
        eligible_among(table, min_fills, (n - 1) as nat)
    }
}

/// The places of the accounts with at least `min_fills` observations, in order.
pub fn eligible(table: &Table, min_fills: usize) -> (r: Vec<usize>)
    ensures
        r@ == eligible_among(*table, min_fills, table.accounts@.len()),
        forall|i: int|
            0 <= i < r@.len() ==> (#[trigger] r@[i]) < table.accounts@.len()
                && table.accounts@[r@[i] as int].acc.n >= min_fills,
        forall|i: int, j: int| 0 <= i < j < r@.len() ==> #[trigger] r@[i] < #[trigger] r@[j],
{
    let mut r: Vec<usize> = Vec::new();
    for i in 0..table.accounts.len()
        invariant
            r@ == eligible_among(*table, min_fills, i as nat),
            forall|j: int|
                0 <= j < r@.len() ==> (#[trigger] r@[j]) < i && table.accounts@[r@[j] as int].acc.n
                    >= min_fills,
            forall|j: int, k: int|
                0 <= j < k < r@.len() ==> #[trigger] r@[j] < #[trigger] r@[k],
    {
        if table.accounts[i].acc.n >= min_fills {
            r.push(i);
        }
    }
    r
}

/// How takers are to be classified.
#[derive(Debug)]
pub enum Plan {
    /// By rule.
    Rule,
    /// By rule, as only that many accounts have enough observations to be clustered.
    TooFew(usize),
    /// By clusters of the accounts at these places.
    Cluster(Vec<usize>),
}

/// Decides how takers are classified: into `k` clusters where `k` is not zero and at least
/// `k` accounts have `min_fills` observations, else by rule.
pub fn plan(table: &Table, min_fills: usize, k: usize) -> (r: Plan)
    ensures
        ({
            let rows = eligible_among(*table, min_fills, table.accounts@.len());
            match r {
                Plan::Rule => k == 0,
                Plan::TooFew(n) => k > 0 && n == rows.len() && n < k,
                Plan::Cluster(v) => k > 0 && v@ == rows && rows.len() >= k,
            }
        }),
        r matches Plan::Cluster(v) ==> clusterable(v@, table.accounts@.len()),
{
    if k == 0 {
        return Plan::Rule;
    }
    let rows = eligible(table, min_fills);
    if rows.len() < k {
        Plan::TooFew(rows.len())
    } else {
        Plan::Cluster(rows)
    }
}

/// Whether `rows` are places among `n`, in ascending order.
pub open spec fn clusterable(rows: Seq<usize>, n: nat) -> bool {
    &&& forall|i: int| 0 <= i < rows.len() ==> (#[trigger] rows[i]) < n
    &&& forall|i: int, j: int| 0 <= i < j < rows.len() ==> #[trigger] rows[i] < #[trigger] rows[j]
}

/// The classes of `n` accounts of which those at the places `rows` are clustered: the
/// clusters that `assign` gives them, and thin for all others.
pub fn cluster_classes(n: usize, rows: &Vec<usize>, assign: &Vec<usize>) -> (r: Vec<Class>)
    requires
        rows@.len() == assign@.len(),
        clusterable(rows@, n as nat),
    ensures
        r@.len() == n,
        forall|j: int|
            0 <= j < rows@.len() ==> r@[#[trigger] rows@[j] as int] == Class::Cluster(assign@[j]),
        forall|i: int|
            0 <= i < n && !rows@.contains(i as usize) ==> #[trigger] r@[i] == Class::Thin,
{
    let mut r: Vec<Class> = Vec::new();
    for i in 0..n
        invariant
            r@.len() == i,
            forall|j: int| 0 <= j < i ==> #[trigger] r@[j] == Class::Thin,
    {
        r.push(Class::Thin);
    }
    for k in 0..rows.len()
        invariant
            rows@.len() == assign@.len(),
            clusterable(rows@, n as nat),
            r@.len() == n,
            forall|j: int| 0 <= j < k ==> r@[#[trigger] rows@[j] as int] == Class::Cluster(assign@[j]),
            forall|i: int|
                0 <= i < n && !rows@.contains(i as usize) ==> #[trigger] r@[i] == Class::Thin,
    {
        let place: usize = rows[k];
        r.set(place, Class::Cluster(assign[k]));
        assert(rows@.contains(place));
    }
    r
}

/// The places that hold `x`, in order.
pub open spec fn places_of<T>(s: Seq<T>, x: T) -> Seq<usize>
    decreases s.len(),
{
    if s.len() == 0 {
        Seq::empty()
    } else if s.last() == x {
        places_of(s.drop_last(), x).push((s.len() - 1) as usize)
    } else {
        places_of(s.drop_last(), x)
    }
}

/// The places of the accounts of a class, in order.
pub fn members(classes: &Vec<Class>, class: Class) -> (r: Vec<usize>)
    ensures
        r@ == places_of(classes@, class),
{
    let mut r: Vec<usize> = Vec::new();
    assert(classes@.take(0) =~= Seq::empty());
    for i in 0..classes.len()
        invariant
            r@ == places_of(classes@.take(i as int), class),
    {
        assert(classes@.take(i + 1).drop_last() =~= classes@.take(i as int));
        if classes[i] == class {
            r.push(i);
        }
    }
    assert(classes@.take(classes@.len() as int) =~= classes@);
    r
}

// ---- volume decomposition ----

/// Who is resting in the book: a maker, or someone else with a resting order.
#[derive(Clone, Copy, Debug, PartialEq, Eq, Structural)]
pub enum Role {
    Maker,
    Other,
}

impl Role {
    /// What the role is called.
    pub fn label(self) -> (r: &'static str)
        ensures
            r@ == match self {
                Role::Maker => "maker"@,
                Role::Other => "other"@,
            },
    {
        match self {
            Role::Maker => "maker",
            Role::Other => "other",
        }
    }
}

/// The two sides of a fill.
#[derive(Clone, Copy, Debug, PartialEq, Eq, Structural)]
pub struct Met {
    pub taker: Class,
    pub maker: Role,
}

/// The class of an address.
pub open spec fn class_in(table: Table, classes: Seq<Class>, address: Seq<char>) -> Class {
    classes[table.places@[address] as int]
}

/// The role of an address: a maker where it was hit at least `min_fills` times.
pub open spec fn role_in(table: Table, min_fills: usize, address: Seq<char>) -> Role {
    if table.accounts@[table.places@[address] as int].acc.n >= min_fills {
        Role::Maker
    } else {
        Role::Other
    }
}

/// The two sides of each fill. Every taker and maker has an account.
pub fn meet(
    fills: &Vec<Fill>,
    takers: &Table,
    classes: &Vec<Class>,
    makers: &Table,
    min_fills: usize,
) -> (r: Vec<Met>)
    requires
        takers.indexed(),
        makers.indexed(),
        classes@.len() == takers.accounts@.len(),
        forall|i: int|
            0 <= i < fills@.len() ==> takers.places@.contains_key((#[trigger] fills@[i]).taker@)
                && makers.places@.contains_key(fills@[i].maker@),
    ensures
        r@.len() == fills@.len(),
        forall|i: int|
            0 <= i < r@.len() ==> #[trigger] r@[i] == (Met {
                taker: class_in(*takers, classes@, fills@[i].taker@),
                maker: role_in(*makers, min_fills, fills@[i].maker@),
            }),
{
    let mut r: Vec<Met> = Vec::new();
    for i in 0..fills.len()
        invariant
            takers.indexed(),
            makers.indexed(),
            classes@.len() == takers.accounts@.len(),
            forall|i: int|
                0 <= i < fills@.len() ==> takers.places@.contains_key(
                    (#[trigger] fills@[i]).taker@,
                ) && makers.places@.contains_key(fills@[i].maker@),
            r@.len() == i,
            forall|j: int|
                0 <= j < i ==> #[trigger] r@[j] == (Met {
                    taker: class_in(*takers, classes@, fills@[j].taker@),
                    maker: role_in(*makers, min_fills, fills@[j].maker@),
                }),
    {
        let t = takers.places.get(fills[i].taker.as_str());
        let m = makers.places.get(fills[i].maker.as_str());
        if let (Some(t), Some(m)) = (t, m) {
            let taker = classes[*t];
            let maker = if makers.accounts[*m].acc.n >= min_fills {
                Role::Maker
            } else {
                Role::Other
            };
            r.push(Met { taker, maker });
        }
    }
    r
}

/// Fills of one taker class against one maker role, by place and in order.
#[derive(Debug)]
pub struct Cell {
    pub met: Met,
    pub fills: Vec<usize>,
}

/// Divides fills by taker class and maker role: each pair once, in the order in which they
/// are first seen, with all its fills.
pub fn decompose(met: &Vec<Met>) -> (r: Vec<Cell>)
    ensures
        r@.map_values(|c: Cell| c.met) == first_seen(met@),
        forall|c: int| 0 <= c < r@.len() ==> (#[trigger] r@[c]).fills@ == places_of(met@, r@[c].met),
{
    let mut r: Vec<Cell> = Vec::new();
    assert(met@.take(0) =~= Seq::empty());
    assert(r@.map_values(|c: Cell| c.met) =~= first_seen(met@.take(0)));
    for i in 0..met.len()
        invariant
            r@.map_values(|c: Cell| c.met) == first_seen(met@.take(i as int)),
            forall|c: int|
                0 <= c < r@.len() ==> (#[trigger] r@[c]).fills@ == places_of(
                    met@.take(i as int),
                    r@[c].met,
                ),
    {
        let ghost upto = met@.take(i as int);
        let ghost before = r@;
        let m = met[i];
        assert(met@.take(i + 1).drop_last() =~= upto);
        let mut c: usize = 0;
        while c < r.len() && r[c].met != m
            invariant
                c <= r@.len(),
                r@ == before,
                forall|d: int| 0 <= d < c ==> (#[trigger] r@[d]).met != m,
            decreases r@.len() - c,
        {
            c += 1;
        }
        proof {
            lemma_unmet(upto, m);
            assert(forall|d: int|
                0 <= d < before.len() ==> before.map_values(|c: Cell| c.met)[d] == (
                #[trigger] before[d]).met);
        }
        if c < r.len() {
            r[c].fills.push(i);
            assert(before.map_values(|c: Cell| c.met)[c as int] == m);
            assert(r@.map_values(|c: Cell| c.met) =~= before.map_values(|c: Cell| c.met));
            assert forall|d: int| 0 <= d < r@.len() implies (#[trigger] r@[d]).fills@ == places_of(
                met@.take(i + 1),
                r@[d].met,
            ) by {
                if d != c {
                    assert(r@[d] == before[d]);
                    assert(before.map_values(|c: Cell| c.met).no_duplicates()) by {
                        lemma_first_seen_distinct(upto);
                    }
                    assert(before.map_values(|c: Cell| c.met)[d] != m);
                }
            }
        } else {
            let mut fills: Vec<usize> = Vec::new();
            fills.push(i);
            r.push(Cell { met: m, fills });
            assert(r@.map_values(|c: Cell| c.met) =~= before.map_values(|c: Cell| c.met).push(m));
            assert(!first_seen(upto).contains(m));
            assert forall|d: int| 0 <= d < r@.len() implies (#[trigger] r@[d]).fills@ == places_of(
                met@.take(i + 1),
                r@[d].met,
            ) by {
                if d < before.len() {
                    assert(r@[d] == before[d]);
                } else {
                    assert(places_of(upto, m) =~= Seq::empty());
                    assert(r@[d].fills@ =~= Seq::<usize>::empty().push(i));
                }
            }
        }
    }
    assert(met@.take(met@.len() as int) =~= met@);
    r
}

/// What is not among the first seen is nowhere.
proof fn lemma_unmet<K>(keys: Seq<K>, x: K)
    ensures
        !first_seen(keys).contains(x) ==> places_of(keys, x) == Seq::<usize>::empty(),
    decreases keys.len(),
{
    if keys.len() > 0 {
        let rest = keys.drop_last();
        lemma_unmet(rest, x);
        let seen = first_seen(rest);
        if seen.contains(x) {
            let i = choose|i: int| 0 <= i < seen.len() && seen[i] == x;
            assert(first_seen(keys)[i] == x);
        }
        if keys.last() == x && !seen.contains(x) {
            assert(first_seen(keys).last() == x);
        }
    }
}

// ---- rankings ----

/// The keys by which doubles are ordered from the largest down.
pub open spec fn falling_keys(v: Seq<Double>) -> Seq<int> {
    v.map_values(|x: Double| -x.key())
}

/// The places of amounts from the largest down, equal ones in the order they stand in.
pub fn by_amount(amounts: &Vec<Double>) -> (r: Vec<usize>)
    requires
        amounts@.len() <= 1 || forall|i: int|
            0 <= i < amounts@.len() ==> !(#[trigger] amounts@[i]).nan(),
    ensures
        r@ == order_of(falling_keys(amounts@)),
        is_order(falling_keys(amounts@), r@),
{
    let mut keys: Vec<i128> = Vec::new();
    for i in 0..amounts.len()
        invariant
            keys@.len() == i,
            forall|j: int| 0 <= j < i ==> #[trigger] keys@[j] == -amounts@[j].key(),
    {
        let key: i128 = amounts[i].order_key();
        assert(-0x8000_0000_0000_0000 <= key <= 0x8000_0000_0000_0000);
        keys.push(-key);
    }
    assert(ints(keys@) =~= falling_keys(amounts@));
    stable_order(&keys)
}

// ---- laws ----

/// Amounts fall along a ranking.
pub proof fn law_rankings_fall(amounts: Seq<Double>, r: Seq<usize>, i: int, j: int)
    requires
        is_order(falling_keys(amounts), r),
        0 <= i < j < r.len(),
    ensures
        !amounts[r[i] as int].below(amounts[r[j] as int]),
        r[i] != r[j],
{
    assert(precedes(falling_keys(amounts), r[i] as int, r[j] as int));
}

/// A taker is called informed only on evidence: enough orders, most of them no sub-orders of
/// a TWAP, a positive mean markout, and a t-statistic above two.
pub proof fn law_informed_takes_evidence(n: nat, twap: nat, min_fills: nat, e: Evidence)
    requires
        rule(n, twap, min_fills, e) == Class::Informed,
    ensures
        n >= min_fills,
        2 * twap <= n,
        (Double { bits: ZERO }).below(e.mean),
        (Double { bits: TWO }).below(e.tstat),
        !e.mean.nan() && !e.tstat.nan(),
{
}

/// A place is among those of `x` exactly where `x` stands there.
pub proof fn law_places_hold<T>(s: Seq<T>, x: T, i: usize)
    requires
        s.len() <= usize::MAX,
    ensures
        places_of(s, x).contains(i) <==> i < s.len() && s[i as int] == x,
    decreases s.len(),
{
    if s.len() > 0 {
        let rest = s.drop_last();
        law_places_hold(rest, x, i);
        let before = places_of(rest, x);
        let all = places_of(s, x);
        if before.contains(i) {
            let j = choose|j: int| 0 <= j < before.len() && before[j] == i;
            assert(all[j] == i);
        }
        if s.last() == x && i == s.len() - 1 {
            assert(all.last() == i);
        }
        if all.contains(i) && !before.contains(i) {
            let j = choose|j: int| 0 <= j < all.len() && all[j] == i;
            if j < before.len() {
                assert(before[j] == i);
            }
        }
    }
}

/// A decomposition leaves no fill out and counts none twice: each is in one cell, and in no
/// other.
pub proof fn law_every_fill_is_in_one_cell(met: Seq<Met>, cells: Seq<Cell>, i: usize)
    requires
        met.len() <= usize::MAX,
        i < met.len(),
        cells.map_values(|c: Cell| c.met) == first_seen(met),
        forall|c: int|
            0 <= c < cells.len() ==> (#[trigger] cells[c]).fills@ == places_of(met, cells[c].met),
    ensures
        exists|c: int| 0 <= c < cells.len() && #[trigger] cells[c].fills@.contains(i),
        forall|c: int, d: int|
            0 <= c < d < cells.len() ==> !(#[trigger] cells[c].fills@.contains(i)
                && #[trigger] cells[d].fills@.contains(i)),
{
    let kinds = cells.map_values(|c: Cell| c.met);
    let m = met[i as int];
    lemma_first_seen_covers(met, m);
    lemma_first_seen_distinct(met);
    assert(met.contains(m));
    let c = choose|c: int| 0 <= c < kinds.len() && kinds[c] == m;
    law_places_hold(met, m, i);
    assert(cells[c].met == m);
    assert(cells[c].fills@.contains(i));
    assert forall|c: int, d: int| 0 <= c < d < cells.len() implies !(
    #[trigger] cells[c].fills@.contains(i) && #[trigger] cells[d].fills@.contains(i)) by {
        law_places_hold(met, cells[c].met, i);
        law_places_hold(met, cells[d].met, i);
        assert(kinds[c] == cells[c].met && kinds[d] == cells[d].met);
    }
}

/// Every fill's address has an account: a table of the groups that fills are divided into
/// leaves none out.
pub proof fn law_every_fill_has_an_account(
    fills: Seq<Fill>,
    side: Side,
    groups: Seq<Vec<usize>>,
    obs: Seq<Observation>,
    bps: Double,
    table: Table,
    i: int,
)
    requires
        is_grouping(
            fills,
            match side {
                Side::Taker => By::Order,
                Side::Maker => By::Hit,
            },
            groups,
        ),
        table.indexed(),
        table.tallies(addresses(side, fills, groups), obs, bps),
        0 <= i < fills.len(),
    ensures
        table.places@.contains_key(address_on(side, fills[i])),
{
    let keys = addresses(side, fills, groups);
    let a = address_on(side, fills[i]);
    assert(is_listed(groups, i));
    let (g, x) = choose|g: int, x: int|
        0 <= g < groups.len() && 0 <= x < groups[g]@.len() && #[trigger] groups[g]@[x] == i;
    assert(keys[g] == a);
    assert(keys.contains(a));
    lemma_first_seen_covers(keys, a);
    let all = names(table.accounts@);
    let p = choose|p: int| 0 <= p < all.len() && all[p] == a;
    assert(table.accounts@[p].address@ == a);
}

/// The class of a taker by rule: TWAP exactly where more than half of the orders are of a TWAP;
/// of the others, thin exactly where there are fewer than `min_fills`; of the rest, informed
/// exactly where the mean is a number above zero and the t-statistic one above two; and else
/// natural. Two has twice two to the power 1074 units.
pub proof fn law_takers_are_classified_by_rule(a: Acc, min_fills: usize, e: Evidence, r: Class)
    requires
        call_ensures(classify_rule, (&a, min_fills, e), r),
    ensures
        ({
            let twap = a.twap + a.twap > a.n;
            let evident = is_number(e.mean) && is_number(e.tstat) && units(e.mean) > 0 && units(
                e.tstat,
            ) > 2 * pow2(1074);
            &&& r == Class::Twap <==> twap
            &&& r == Class::Thin <==> !twap && a.n < min_fills
            &&& r == Class::Informed <==> !twap && a.n >= min_fills && evident
            &&& r == Class::Natural <==> !twap && a.n >= min_fills && !evident
        }),
{
    law_constants_are_their_numbers(e.mean);
    law_doubles_compare_as_numbers(Double { bits: ZERO }, e.mean);
    law_doubles_compare_as_numbers(Double { bits: TWO }, e.tstat);
}

/// All takers are classified, each on its own account and its own evidence.
pub proof fn law_each_taker_is_classified_for_itself(
    table: Table,
    min_fills: usize,
    evidence: Vec<Evidence>,
    r: Vec<Class>,
    i: int,
    c: Class,
)
    requires
        call_ensures(classify, (&table, min_fills, &evidence), r),
        0 <= i < table.accounts@.len(),
        call_ensures(classify_rule, (&table.accounts@[i].acc, min_fills, evidence@[i]), c),
    ensures
        r@.len() == table.accounts@.len(),
        r@[i] == c,
{
    let x = r@[i];
}

proof fn lemma_eligible_among(table: Table, min_fills: usize, n: nat, p: usize)
    requires
        n <= usize::MAX,
    ensures
        eligible_among(table, min_fills, n).contains(p) <==> p < n
            && table.accounts@[p as int].acc.n >= min_fills,
        n <= table.accounts@.len() ==> eligible_among(table, min_fills, n).len()
            == table.accounts@.take(n as int).filter(|x: Account| x.acc.n >= min_fills).len(),
    decreases n,
{
    reveal(Seq::filter);
    if n > 0 {
        lemma_eligible_among(table, min_fills, (n - 1) as nat, p);
        let before = eligible_among(table, min_fills, (n - 1) as nat);
        let all = eligible_among(table, min_fills, n);
        if before.contains(p) {
            let j = choose|j: int| 0 <= j < before.len() && before[j] == p;
            assert(all[j] == p);
        }
        if p == n - 1 && table.accounts@[n - 1].acc.n >= min_fills {
            assert(all.last() == p);
        }
        if all.contains(p) && !before.contains(p) {
            let j = choose|j: int| 0 <= j < all.len() && all[j] == p;
            if j < before.len() {
                assert(before[j] == p);
            }
        }
        if n <= table.accounts@.len() {
            assert(table.accounts@.take(n as int).drop_last() =~= table.accounts@.take(n - 1));
            assert(table.accounts@.take(n as int).last() == table.accounts@[n - 1]);
        }
    }
}

/// The places that are eligible are those of the accounts with enough observations, each once and
/// ascending.
pub proof fn law_eligible_accounts_have_enough(
    table: Table,
    min_fills: usize,
    r: Vec<usize>,
    p: usize,
    i: int,
    j: int,
)
    requires
        call_ensures(eligible, (&table, min_fills), r),
        table.accounts@.len() <= usize::MAX,
    ensures
        r@.contains(p) <==> p < table.accounts@.len() && table.accounts@[p as int].acc.n
            >= min_fills,
        0 <= i < j < r@.len() ==> r@[i] < r@[j],
{
    lemma_eligible_among(table, min_fills, table.accounts@.len(), p);
}

/// Takers are clustered where clusters are asked for and there are at least as many accounts with
/// enough observations; those are the rows. Else they are classified by rule, and where there
/// are too few, it is said how many there are.
pub proof fn law_clusters_need_as_many_accounts(
    table: Table,
    min_fills: usize,
    k: usize,
    r: Plan,
    p: usize,
)
    requires
        call_ensures(plan, (&table, min_fills, k), r),
        table.accounts@.len() <= usize::MAX,
    ensures
        ({
            let enough = table.accounts@.filter(|x: Account| x.acc.n >= min_fills).len();
            &&& r is Rule <==> k == 0
            &&& r is TooFew <==> k > 0 && enough < k
            &&& r is Cluster <==> k > 0 && enough >= k
            &&& r matches Plan::TooFew(n) ==> n == enough
            &&& r matches Plan::Cluster(v) ==> v@.len() == enough && (v@.contains(p) <==> p
                < table.accounts@.len() && table.accounts@[p as int].acc.n >= min_fills)
        }),
{
    lemma_eligible_among(table, min_fills, table.accounts@.len(), p);
    assert(table.accounts@.take(table.accounts@.len() as int) =~= table.accounts@);
}

/// Clustered accounts are of the clusters that they are assigned to, and all others are thin.
pub proof fn law_clustered_accounts_have_their_cluster(
    n: usize,
    rows: Vec<usize>,
    assign: Vec<usize>,
    r: Vec<Class>,
    j: int,
    i: int,
)
    requires
        call_ensures(cluster_classes, (n, &rows, &assign), r),
        rows@.len() == assign@.len(),
        0 <= i < n,
    ensures
        r@.len() == n,
        0 <= j < rows@.len() && rows@[j] == i ==> r@[i] == Class::Cluster(assign@[j]),
        !rows@.contains(i as usize) ==> r@[i] == Class::Thin,
{
    if 0 <= j < rows@.len() {
        let x = rows@[j];
    }
    let y = r@[i];
}

proof fn lemma_places_ascend<T>(s: Seq<T>, x: T)
    requires
        s.len() <= usize::MAX,
    ensures
        forall|i: int, j: int|
            0 <= i < j < places_of(s, x).len() ==> #[trigger] places_of(s, x)[i]
                < #[trigger] places_of(s, x)[j],
        forall|i: int| 0 <= i < places_of(s, x).len() ==> #[trigger] places_of(s, x)[i] < s.len(),
    decreases s.len(),
{
    if s.len() > 0 {
        let rest = s.drop_last();
        lemma_places_ascend(rest, x);
        let before = places_of(rest, x);
        let all = places_of(s, x);
        assert forall|i: int| 0 <= i < all.len() implies #[trigger] all[i] < s.len() by {
            if i < before.len() {
                assert(all[i] == before[i]);
            }
        }
        assert forall|i: int, j: int| 0 <= i < j < all.len() implies #[trigger] all[i]
            < #[trigger] all[j] by {
            assert(all[i] == before[i]);
            if j < before.len() {
                assert(all[j] == before[j]);
            }
        }
    }
}

/// The members of a class are the places of the accounts that are of it, each once and ascending.
pub proof fn law_members_are_of_their_class(
    classes: Vec<Class>,
    class: Class,
    r: Vec<usize>,
    p: usize,
    i: int,
    j: int,
)
    requires
        call_ensures(members, (&classes, class), r),
        classes@.len() <= usize::MAX,
    ensures
        r@.contains(p) <==> p < classes@.len() && classes@[p as int] == class,
        0 <= i < j < r@.len() ==> r@[i] < r@[j],
{
    law_places_hold(classes@, class, p);
    lemma_places_ascend(classes@, class);
}

/// The two sides of a fill are the class of the account of its taker, and whether the account of
/// its maker was hit often enough to be a maker's.
pub proof fn law_fills_meet_their_own_sides(
    fills: Vec<Fill>,
    takers: Table,
    classes: Vec<Class>,
    makers: Table,
    min_fills: usize,
    r: Vec<Met>,
    i: int,
    t: int,
    m: int,
)
    requires
        call_ensures(meet, (&fills, &takers, &classes, &makers, min_fills), r),
        takers.indexed(),
        makers.indexed(),
        0 <= i < fills@.len(),
        0 <= t < takers.accounts@.len(),
        takers.accounts@[t].address@ == fills@[i].taker@,
        0 <= m < makers.accounts@.len(),
        makers.accounts@[m].address@ == fills@[i].maker@,
    ensures
        r@.len() == fills@.len(),
        r@[i].taker == classes@[t],
        r@[i].maker == Role::Maker <==> makers.accounts@[m].acc.n >= min_fills,
{
    let x = r@[i];
}

/// A decomposition has one cell for each pair of sides that meet, and in it all the fills in which
/// they do, ascending.
pub proof fn law_cells_hold_the_fills_of_their_sides(
    met: Vec<Met>,
    r: Vec<Cell>,
    c: int,
    d: int,
    i: usize,
)
    requires
        call_ensures(decompose, (&met,), r),
        met@.len() <= usize::MAX,
        0 <= c < r@.len(),
        0 <= d < r@.len(),
    ensures
        r@[c].fills@.contains(i) <==> i < met@.len() && met@[i as int] == r@[c].met,
        r@[c].met == r@[d].met ==> c == d,
        forall|x: int, y: int|
            0 <= x < y < r@[c].fills@.len() ==> #[trigger] r@[c].fills@[x]
                < #[trigger] r@[c].fills@[y],
{
    law_places_hold(met@, r@[c].met, i);
    lemma_places_ascend(met@, r@[c].met);
    lemma_first_seen_distinct(met@);
    let kinds = r@.map_values(|c: Cell| c.met);
    assert(kinds[c] == r@[c].met && kinds[d] == r@[d].met);
}

/// No fill is without a cell.
pub proof fn law_every_fill_has_a_cell(met: Vec<Met>, r: Vec<Cell>, i: int)
    requires
        call_ensures(decompose, (&met,), r),
        0 <= i < met@.len(),
        met@.len() <= usize::MAX,
    ensures
        exists|c: int| 0 <= c < r@.len() && (#[trigger] r@[c]).met == met@[i],
{
    let kinds = r@.map_values(|c: Cell| c.met);
    lemma_first_seen_covers(met@, met@[i]);
    assert(met@.contains(met@[i]));
    let c = choose|c: int| 0 <= c < kinds.len() && kinds[c] == met@[i];
    assert(r@[c].met == met@[i]);
}

/// A ranking lists every amount once, from the largest number down, and of equal ones the earlier
/// first.
pub proof fn law_rankings_go_from_the_largest_down(
    amounts: Vec<Double>,
    r: Vec<usize>,
    i: int,
    j: int,
    x: int,
)
    requires
        call_ensures(by_amount, (&amounts,), r),
        0 <= i < j < r@.len(),
        0 <= x < amounts@.len(),
    ensures
        r@.len() == amounts@.len(),
        units(amounts@[r@[i] as int]) >= units(amounts@[r@[j] as int]),
        units(amounts@[r@[i] as int]) == units(amounts@[r@[j] as int]) ==> r@[i] < r@[j],
        exists|k: int| 0 <= k < r@.len() && #[trigger] r@[k] == x,
{
    let keys = falling_keys(amounts@);
    assert(precedes(keys, r@[i] as int, r@[j] as int));
    law_doubles_compare_as_numbers(amounts@[r@[i] as int], amounts@[r@[j] as int]);
    lemma_order_covers(keys, r@, 0, keys.len() as int, x);
}

/// What the classes and the roles are called.
pub proof fn law_classes_have_their_names(c: Class, r: String, role: Role, s: &'static str)
    requires
        call_ensures(Class::label, (c,), r),
        call_ensures(Role::label, (role,), s),
    ensures
        c == Class::Informed ==> r@ == "informed"@,
        c == Class::Natural ==> r@ == "natural"@,
        c == Class::Twap ==> r@ == "twap"@,
        c == Class::Thin ==> r@ == "thin"@,
        c matches Class::Cluster(i) ==> r@ == seq!['k'] + decimal(i as nat),
        role == Role::Maker ==> s@ == "maker"@,
        role == Role::Other ==> s@ == "other"@,
{
    reveal_strlit("k");
    assert("k"@ =~= seq!['k']);
}

} // verus!
