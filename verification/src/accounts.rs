//! Addresses and what has been observed of each.
use vstd::prelude::*;

use vstd::hash_map::StringHashMap;

use crate::classifier::Fill;
use crate::double::{is_number, law_doubles_compare_as_numbers, units, Double};
use crate::groups::{is_grouping, is_listed, law_every_fill_is_in_one_group, By};

verus! {

/// One observation: fills that one decision caused. Their markouts are identical, so those
/// of the first stand for all.
#[derive(Clone, Copy, Debug)]
pub struct Observation {
    /// How many fills it has.
    pub fills: usize,
    /// The sum of the fills' notionals.
    pub notional: Double,
    /// The mean of the fills' half-spreads, weighted by notional.
    pub eff: Double,
    pub mo: [Double; 3],
    pub pre: Option<Double>,
    pub twap: bool,
}

/// The sums over a group of fills, in double arithmetic: `notional` is the sum of their
/// notionals and `eff` is the sum of `eff * notional`, divided by that.
#[derive(Clone, Copy, Debug)]
pub struct Sums {
    pub notional: Double,
    pub eff: Double,
}

/// The observation that a group of fills is.
pub open spec fn observation(fills: Seq<Fill>, group: Seq<usize>, sums: Sums) -> Observation {
    let first = fills[group[0] as int];
    Observation {
        fills: group.len() as usize,
        notional: sums.notional,
        eff: sums.eff,
        mo: first.mo,
        pre: first.pre,
        twap: first.twap,
    }
}

/// Makes an observation of a group of fills.
pub fn observe(fills: &Vec<Fill>, group: &Vec<usize>, sums: Sums) -> (r: Observation)
    requires
        group@.len() > 0,
        group@[0] < fills@.len(),
    ensures
        r == observation(fills@, group@, sums),
{
    let first = &fills[group[0]];
    Observation {
        fills: group.len(),
        notional: sums.notional,
        eff: sums.eff,
        mo: first.mo,
        pre: first.pre,
        twap: first.twap,
    }
}

/// The fills of all observations together.
pub open spec fn total_fills(obs: Seq<Observation>) -> nat
    decreases obs.len(),
{
    if obs.len() == 0 {
        0
    } else {
        total_fills(obs.drop_last()) + obs.last().fills as nat
    }
}

/// The moves of the venues before the fills, of those observations that have one.
pub open spec fn pre_moves(obs: Seq<Observation>) -> Seq<Double>
    decreases obs.len(),
{
    if obs.len() == 0 {
        Seq::empty()
    } else {
        match obs.last().pre {
            Some(p) => pre_moves(obs.drop_last()).push(p),
            None => pre_moves(obs.drop_last()),
        }
    }
}

/// How many observations have a markout at one second above `bps`.
pub open spec fn pickoffs(obs: Seq<Observation>, bps: Double) -> nat
    decreases obs.len(),
{
    if obs.len() == 0 {
        0
    } else {
        pickoffs(obs.drop_last(), bps) + if bps.below(obs.last().mo@[1]) {
            1nat
        } else {
            0
        }
    }
}

/// How many observations are sub-orders of a TWAP.
pub open spec fn twaps(obs: Seq<Observation>) -> nat
    decreases obs.len(),
{
    if obs.len() == 0 {
        0
    } else {
        twaps(obs.drop_last()) + if obs.last().twap {
            1nat
        } else {
            0
        }
    }
}

/// What has been observed of one address, or of all.
#[derive(Debug)]
pub struct Acc {
    /// How many observations there are.
    pub n: usize,
    /// How many fills they have together.
    pub fills: u128,
    /// The notional of each.
    pub notional: Vec<Double>,
    /// The half-spread of each.
    pub eff: Vec<Double>,
    /// The markouts of each, by horizon.
    pub mo: [Vec<Double>; 3],
    /// The moves of the venues before those that have one.
    pub pre: Vec<Double>,
    /// How many have a markout at one second above the threshold.
    pub pickoffs: usize,
    /// How many are sub-orders of a TWAP.
    pub twap: usize,
}

impl Acc {
    /// Whether this is what the observations `obs` add up to, with `bps` the threshold of a
    /// pick-off.
    pub open spec fn of(self, obs: Seq<Observation>, bps: Double) -> bool {
        &&& self.n == obs.len()
        &&& self.fills == total_fills(obs)
        &&& self.notional@ == obs.map_values(|o: Observation| o.notional)
        &&& self.eff@ == obs.map_values(|o: Observation| o.eff)
        &&& forall|i: int|
            0 <= i < 3 ==> (#[trigger] self.mo@[i])@ == obs.map_values(|o: Observation| o.mo@[i])
        &&& self.pre@ == pre_moves(obs)
        &&& self.pickoffs == pickoffs(obs, bps)
        &&& self.twap == twaps(obs)
    }

    /// Whether the counts fit together: one entry for each observation, and no more
    /// pick-offs, TWAP sub-orders or earlier moves than observations.
    pub open spec fn consistent(self) -> bool {
        &&& self.notional@.len() == self.n
        &&& self.eff@.len() == self.n
        &&& forall|i: int| 0 <= i < 3 ==> (#[trigger] self.mo@[i])@.len() == self.n
        &&& self.pre@.len() <= self.n
        &&& self.pickoffs <= self.n
        &&& self.twap <= self.n
        &&& self.fills <= self.n * usize::MAX
    }

    /// Nothing observed.
    pub fn new() -> (r: Acc)
        ensures
            r.consistent(),
            forall|bps: Double| #[trigger] r.of(Seq::empty(), bps),
    {
        let r = Acc {
            n: 0,
            fills: 0,
            notional: Vec::new(),
            eff: Vec::new(),
            mo: [Vec::new(), Vec::new(), Vec::new()],
            pre: Vec::new(),
            pickoffs: 0,
            twap: 0,
        };
        assert forall|bps: Double| #[trigger] r.of(Seq::empty(), bps) by {
            let none = Seq::<Observation>::empty();
            assert(r.notional@ =~= none.map_values(|o: Observation| o.notional));
            assert(r.eff@ =~= none.map_values(|o: Observation| o.eff));
            assert forall|i: int| 0 <= i < 3 implies (#[trigger] r.mo@[i])@ == none.map_values(
                |o: Observation| o.mo@[i],
            ) by {
                assert(i == 0 || i == 1 || i == 2);
                assert(r.mo@[i]@ =~= none.map_values(|o: Observation| o.mo@[i]));
            }
        }
        r
    }

    /// Takes in an observation. A pick-off is one after which the mid moved more than `bps`
    /// with the taker within a second.
    pub fn push(&mut self, o: Observation, bps: Double)
        requires
            old(self).consistent(),
        ensures
            final(self).consistent(),
            final(self).n == old(self).n + 1,
            final(self).fills == old(self).fills + o.fills,
            final(self).notional@ == old(self).notional@.push(o.notional),
            final(self).eff@ == old(self).eff@.push(o.eff),
            forall|i: int|
                0 <= i < 3 ==> (#[trigger] final(self).mo@[i])@ == old(self).mo@[i]@.push(o.mo@[i]),
            final(self).pre@ == match o.pre {
                Some(p) => old(self).pre@.push(p),
                None => old(self).pre@,
            },
            final(self).pickoffs == old(self).pickoffs + if bps.below(o.mo@[1]) {
                1int
            } else {
                0
            },
            final(self).twap == old(self).twap + if o.twap {
                1int
            } else {
                0
            },
            forall|obs: Seq<Observation>|
                old(self).of(obs, bps) ==> #[trigger] final(self).of(obs.push(o), bps),
    {
        self.notional.push(o.notional);
        self.n = self.notional.len();
        assert(self.n == old(self).n + 1);
        proof {
            let n0 = old(self).n as int;
            let fills0 = old(self).fills as int;
            let more = o.fills as int;
            let max = usize::MAX as int;
            assert(fills0 + more <= (n0 + 1) * max) by (nonlinear_arith)
                requires
                    fills0 <= n0 * max,
                    more <= max,
            ;
            assert((n0 + 1) * max <= 0xffff_ffff_ffff_ffff * 0xffff_ffff_ffff_ffff)
                by (nonlinear_arith)
                requires
                    0 <= n0 + 1 <= max <= 0xffff_ffff_ffff_ffff,
            ;
        }
        self.fills = self.fills + o.fills as u128;
        self.eff.push(o.eff);
        for i in 0..3usize
            invariant
                self.n == old(self).n + 1,
                self.fills == old(self).fills + o.fills,
                self.notional@ == old(self).notional@.push(o.notional),
                self.eff@ == old(self).eff@.push(o.eff),
                self.pre == old(self).pre,
                self.pickoffs == old(self).pickoffs,
                self.twap == old(self).twap,
                forall|j: int|
                    0 <= j < 3 ==> (#[trigger] self.mo@[j])@ == (if j < i {
                        old(self).mo@[j]@.push(o.mo@[j])
                    } else {
                        old(self).mo@[j]@
                    }),
        {
            self.mo[i].push(o.mo[i]);
        }
        if let Some(p) = o.pre {
            self.pre.push(p);
        }
        if bps.lt(o.mo[1]) {
            self.pickoffs += 1;
        }
        if o.twap {
            self.twap += 1;
        }
        assert forall|obs: Seq<Observation>| old(self).of(obs, bps) implies #[trigger] self.of(
            obs.push(o),
            bps,
        ) by {
            let more = obs.push(o);
            assert(more.drop_last() =~= obs);
            assert(self.notional@ =~= more.map_values(|o: Observation| o.notional));
            assert(self.eff@ =~= more.map_values(|o: Observation| o.eff));
            assert forall|i: int| 0 <= i < 3 implies (#[trigger] self.mo@[i])@ == more.map_values(
                |o: Observation| o.mo@[i],
            ) by {
                assert(old(self).mo@[i]@ == obs.map_values(|o: Observation| o.mo@[i]));
                assert(self.mo@[i]@ =~= more.map_values(|o: Observation| o.mo@[i]));
            }
        }
    }
}

// ---- by address ----

/// Which side of a fill is looked at.
#[derive(Clone, Copy, Debug, PartialEq, Eq, Structural)]
pub enum Side {
    Taker,
    Maker,
}

/// The address on a side of a fill.
pub open spec fn address_on(side: Side, f: Fill) -> Seq<char> {
    match side {
        Side::Taker => f.taker@,
        Side::Maker => f.maker@,
    }
}

/// The address of each group: that of its first fill.
pub open spec fn addresses(side: Side, fills: Seq<Fill>, groups: Seq<Vec<usize>>) -> Seq<
    Seq<char>,
> {
    Seq::new(groups.len(), |g: int| address_on(side, fills[groups[g]@[0] as int]))
}

/// The observation that each group is.
pub open spec fn observations(
    fills: Seq<Fill>,
    groups: Seq<Vec<usize>>,
    sums: Seq<Sums>,
) -> Seq<Observation> {
    Seq::new(groups.len(), |g: int| observation(fills, groups[g]@, sums[g]))
}

/// The observations of one address, in order; `keys` holds the address of each.
pub open spec fn of_address(keys: Seq<Seq<char>>, obs: Seq<Observation>, a: Seq<char>) -> Seq<
    Observation,
>
    decreases keys.len(),
{
    if keys.len() == 0 {
        Seq::empty()
    } else if keys.last() == a {
        of_address(keys.drop_last(), obs.drop_last(), a).push(obs.last())
    } else {
        of_address(keys.drop_last(), obs.drop_last(), a)
    }
}

/// Each key once, in the order in which they are first seen.
pub open spec fn first_seen<K>(keys: Seq<K>) -> Seq<K>
    decreases keys.len(),
{
    if keys.len() == 0 {
        Seq::empty()
    } else {
        let rest = first_seen(keys.drop_last());
        if rest.contains(keys.last()) {
            rest
        } else {
            rest.push(keys.last())
        }
    }
}

/// The first seen are distinct.
pub proof fn lemma_first_seen_distinct<K>(keys: Seq<K>)
    ensures
        first_seen(keys).no_duplicates(),
    decreases keys.len(),
{
    if keys.len() > 0 {
        lemma_first_seen_distinct(keys.drop_last());
    }
}

/// Every key is among the first seen.
pub proof fn lemma_first_seen_covers<K>(keys: Seq<K>, x: K)
    ensures
        first_seen(keys).contains(x) <==> keys.contains(x),
    decreases keys.len(),
{
    if keys.len() > 0 {
        let rest = keys.drop_last();
        lemma_first_seen_covers(rest, x);
        let seen = first_seen(rest);
        let all = first_seen(keys);
        if seen.contains(x) {
            let i = choose|i: int| 0 <= i < seen.len() && seen[i] == x;
            assert(all[i] == x);
        }
        if keys.last() == x && !seen.contains(x) {
            assert(all.last() == x);
        }
        if rest.contains(x) {
            let i = choose|i: int| 0 <= i < rest.len() && rest[i] == x;
            assert(keys[i] == x);
        }
        if keys.contains(x) && keys.last() != x {
            let i = choose|i: int| 0 <= i < keys.len() && keys[i] == x;
            assert(rest[i] == x);
        }
        if all.contains(x) && !seen.contains(x) {
            let i = choose|i: int| 0 <= i < all.len() && all[i] == x;
            assert(i == seen.len());
            assert(keys[keys.len() - 1] == x);
        }
    }
}

/// An address and what has been observed of it.
#[derive(Debug)]
pub struct Account {
    pub address: String,
    pub acc: Acc,
}

/// The addresses of accounts.
pub open spec fn names(accounts: Seq<Account>) -> Seq<Seq<char>> {
    accounts.map_values(|a: Account| a.address@)
}

/// Accounts, one for each address.
pub struct Table {
    pub accounts: Vec<Account>,
    /// Where the account of an address stands.
    pub places: StringHashMap<usize>,
}

impl Table {
    /// Whether each account is found by its address, and nothing else is found.
    pub open spec fn indexed(self) -> bool {
        &&& forall|i: int|
            0 <= i < self.accounts@.len() ==> self.places@.contains_key(
                (#[trigger] self.accounts@[i]).address@,
            ) && self.places@[self.accounts@[i].address@] == i
        &&& forall|a: Seq<char>| #[trigger]
            self.places@.contains_key(a) ==> self.places@[a] < self.accounts@.len()
                && self.accounts@[self.places@[a] as int].address@ == a
    }

    /// Whether these are the accounts of the observations `obs`, of the addresses `keys`: an
    /// account for each address, in the order in which they are first seen, with what its
    /// own observations add up to.
    pub open spec fn tallies(
        self,
        keys: Seq<Seq<char>>,
        obs: Seq<Observation>,
        bps: Double,
    ) -> bool {
        &&& names(self.accounts@) == first_seen(keys)
        &&& forall|i: int|
            0 <= i < self.accounts@.len() ==> (#[trigger] self.accounts@[i]).acc.of(
                of_address(keys, obs, self.accounts@[i].address@),
                bps,
            ) && self.accounts@[i].acc.consistent()
    }

    fn new() -> (r: Table)
        ensures
            r.indexed(),
            forall|bps: Double| #[trigger] r.tallies(Seq::empty(), Seq::empty(), bps),
    {
        let r = Table { accounts: Vec::new(), places: StringHashMap::new() };
        assert(names(r.accounts@) =~= first_seen(Seq::empty()));
        r
    }

    /// The place of the account of an address, where there is one.
    pub fn find(&self, address: &str) -> (r: Option<usize>)
        requires
            self.indexed(),
        ensures
            match r {
                Some(i) => i < self.accounts@.len() && self.accounts@[i as int].address@
                    == address@,
                None => !names(self.accounts@).contains(address@),
            },
    {
        match self.places.get(address) {
            Some(i) => Some(*i),
            None => {
                assert(forall|i: int|
                    0 <= i < self.accounts@.len() ==> names(self.accounts@)[i]
                        == (#[trigger] self.accounts@[i]).address@);
                None
            },
        }
    }

    fn note(
        &mut self,
        address: &str,
        o: Observation,
        bps: Double,
        keys: Ghost<Seq<Seq<char>>>,
        obs: Ghost<Seq<Observation>>,
    )
        requires
            old(self).indexed(),
            keys@.len() == obs@.len(),
            old(self).tallies(keys@, obs@, bps),
        ensures
            final(self).indexed(),
            final(self).tallies(keys@.push(address@), obs@.push(o), bps),
    {
        let ghost before = self.accounts@;
        let ghost more = keys@.push(address@);
        let ghost more_obs = obs@.push(o);
        proof {
            assert(more.drop_last() =~= keys@);
            assert(more_obs.drop_last() =~= obs@);
            lemma_unseen(keys@, obs@, address@);
        }
        match self.find(address) {
            Some(i) => {
                let ghost own = of_address(keys@, obs@, address@);
                assert(before[i as int].acc.of(own, bps));
                self.accounts[i].acc.push(o, bps);
                assert(self.accounts@[i as int].acc.of(own.push(o), bps));
                assert(names(self.accounts@) =~= names(before));
                assert(names(before)[i as int] == address@);
                assert forall|j: int| 0 <= j < self.accounts@.len() implies (
                #[trigger] self.accounts@[j]).acc.of(
                    of_address(more, more_obs, self.accounts@[j].address@),
                    bps,
                ) && self.accounts@[j].acc.consistent() by {
                    if j != i {
                        assert(self.accounts@[j] == before[j]);
                    }
                }
                assert(forall|j: int|
                    0 <= j < before.len() ==> before[j].address@ == (
                    #[trigger] self.accounts@[j]).address@);
            },
            None => {
                let mut acc = Acc::new();
                acc.push(o, bps);
                let place: usize = self.accounts.len();
                self.accounts.push(Account { address: address.to_owned(), acc });
                self.places.insert(address.to_owned(), place);
                assert(names(self.accounts@) =~= names(before).push(address@));
                assert forall|j: int| 0 <= j < self.accounts@.len() implies (
                #[trigger] self.accounts@[j]).acc.of(
                    of_address(more, more_obs, self.accounts@[j].address@),
                    bps,
                ) && self.accounts@[j].acc.consistent() by {
                    if j < before.len() {
                        assert(self.accounts@[j] == before[j]);
                        assert(names(before)[j] == before[j].address@);
                    }
                }
                assert(forall|j: int|
                    0 <= j < before.len() ==> before[j] == #[trigger] self.accounts@[j]);
            },
        }
    }
}

/// An address that is not among the keys has no observations.
proof fn lemma_unseen(keys: Seq<Seq<char>>, obs: Seq<Observation>, a: Seq<char>)
    requires
        keys.len() == obs.len(),
    ensures
        !first_seen(keys).contains(a) ==> of_address(keys, obs, a) == Seq::<Observation>::empty(),
        keys.contains(a) ==> first_seen(keys).contains(a),
    decreases keys.len(),
{
    if keys.len() > 0 {
        let rest = keys.drop_last();
        lemma_unseen(rest, obs.drop_last(), a);
        let seen = first_seen(rest);
        let all = first_seen(keys);
        if seen.contains(a) {
            let i = choose|i: int| 0 <= i < seen.len() && seen[i] == a;
            assert(all[i] == a);
        }
        if keys.last() == a && !seen.contains(a) {
            assert(all.last() == a);
        }
        if keys.contains(a) && keys.last() != a {
            let i = choose|i: int| 0 <= i < keys.len() && keys[i] == a;
            assert(rest[i] == a);
        }
    }
}

/// The accounts of the addresses on one side: each group of fills is one observation of the
/// address of its first fill.
pub fn tally(
    fills: &Vec<Fill>,
    groups: &Vec<Vec<usize>>,
    sums: &Vec<Sums>,
    side: Side,
    bps: Double,
) -> (r: Table)
    requires
        sums@.len() == groups@.len(),
        forall|g: int|
            0 <= g < groups@.len() ==> (#[trigger] groups@[g])@.len() > 0 && groups@[g]@[0]
                < fills@.len(),
    ensures
        r.indexed(),
        r.tallies(
            addresses(side, fills@, groups@),
            observations(fills@, groups@, sums@),
            bps,
        ),
{
    let ghost keys = addresses(side, fills@, groups@);
    let ghost obs = observations(fills@, groups@, sums@);
    let mut table = Table::new();
    assert(keys.take(0) =~= Seq::empty());
    assert(obs.take(0) =~= Seq::empty());
    for g in 0..groups.len()
        invariant
            sums@.len() == groups@.len(),
            forall|g: int|
                0 <= g < groups@.len() ==> (#[trigger] groups@[g])@.len() > 0 && groups@[g]@[0]
                    < fills@.len(),
            keys == addresses(side, fills@, groups@),
            obs == observations(fills@, groups@, sums@),
            table.indexed(),
            table.tallies(keys.take(g as int), obs.take(g as int), bps),
    {
        let first = &fills[groups[g][0]];
        let address = match side {
            Side::Taker => first.taker.as_str(),
            Side::Maker => first.maker.as_str(),
        };
        let o = observe(fills, &groups[g], sums[g]);
        assert(keys.take(g + 1) =~= keys.take(g as int).push(address@));
        assert(obs.take(g + 1) =~= obs.take(g as int).push(o));
        table.note(address, o, bps, Ghost(keys.take(g as int)), Ghost(obs.take(g as int)));
    }
    assert(keys.take(keys.len() as int) =~= keys);
    assert(obs.take(obs.len() as int) =~= obs);
    table
}

/// What all the groups together add up to.
pub fn total(fills: &Vec<Fill>, groups: &Vec<Vec<usize>>, sums: &Vec<Sums>, bps: Double) -> (r:
    Acc)
    requires
        sums@.len() == groups@.len(),
        forall|g: int|
            0 <= g < groups@.len() ==> (#[trigger] groups@[g])@.len() > 0 && groups@[g]@[0]
                < fills@.len(),
    ensures
        r.consistent(),
        r.of(observations(fills@, groups@, sums@), bps),
{
    let ghost obs = observations(fills@, groups@, sums@);
    let mut acc = Acc::new();
    assert(obs.take(0) =~= Seq::empty());
    for g in 0..groups.len()
        invariant
            sums@.len() == groups@.len(),
            forall|g: int|
                0 <= g < groups@.len() ==> (#[trigger] groups@[g])@.len() > 0 && groups@[g]@[0]
                    < fills@.len(),
            obs == observations(fills@, groups@, sums@),
            acc.consistent(),
            acc.of(obs.take(g as int), bps),
    {
        let o = observe(fills, &groups[g], sums[g]);
        acc.push(o, bps);
        assert(obs.take(g + 1) =~= obs.take(g as int).push(o));
    }
    assert(obs.take(obs.len() as int) =~= obs);
    acc
}

// ---- laws ----

/// The positions that the first `m` groups list.
spec fn listed(groups: Seq<Vec<usize>>, m: nat) -> Set<usize>
    decreases m,
{
    if m == 0 {
        Set::empty()
    } else {
        listed(groups, (m - 1) as nat).union(groups[m - 1]@.to_set())
    }
}

proof fn lemma_listed(groups: Seq<Vec<usize>>, m: nat, v: usize)
    requires
        m <= groups.len(),
    ensures
        listed(groups, m).contains(v) <==> exists|g: int, x: int|
            0 <= g < m && 0 <= x < groups[g]@.len() && #[trigger] groups[g]@[x] == v,
    decreases m,
{
    if m > 0 {
        lemma_listed(groups, (m - 1) as nat, v);
        let last = groups[m - 1]@;
        if last.to_set().contains(v) {
            let x = choose|x: int| 0 <= x < last.len() && last[x] == v;
            assert(groups[m - 1]@[x] == v);
        }
        if exists|g: int, x: int|
            0 <= g < m && 0 <= x < groups[g]@.len() && #[trigger] groups[g]@[x] == v {
            let (g, x) = choose|g: int, x: int|
                0 <= g < m && 0 <= x < groups[g]@.len() && #[trigger] groups[g]@[x] == v;
            if g == m - 1 {
                assert(last.contains(v));
            }
        }
    }
}

proof fn lemma_listed_count(
    fills: Seq<Fill>,
    by: By,
    groups: Seq<Vec<usize>>,
    sums: Seq<Sums>,
    m: nat,
)
    requires
        is_grouping(fills, by, groups),
        m <= groups.len(),
        fills.len() <= usize::MAX,
    ensures
        listed(groups, m).finite(),
        listed(groups, m).len() == total_fills(observations(fills, groups, sums).take(m as int)),
    decreases m,
{
    let obs = observations(fills, groups, sums);
    if m > 0 {
        let before = (m - 1) as nat;
        let last = groups[m - 1]@;
        lemma_listed_count(fills, by, groups, sums, before);
        assert(obs.take(m as int).drop_last() =~= obs.take(before as int));
        assert(last.no_duplicates()) by {
            assert forall|x: int, y: int|
                0 <= x < last.len() && 0 <= y < last.len() && x != y implies last[x] != last[y] by {
                if x < y {
                    assert(groups[m - 1]@[x] < groups[m - 1]@[y]);
                } else {
                    assert(groups[m - 1]@[y] < groups[m - 1]@[x]);
                }
            }
        }
        last.unique_seq_to_set();
        assert(last.len() == groups[m - 1].len());
        assert(listed(groups, before).disjoint(last.to_set())) by {
            assert forall|v: usize|
                listed(groups, before).contains(v) && last.to_set().contains(v) implies false by {
                lemma_listed(groups, before, v);
                let (g, x) = choose|g: int, x: int|
                    0 <= g < before && 0 <= x < groups[g]@.len() && #[trigger] groups[g]@[x] == v;
                let y = choose|y: int| 0 <= y < last.len() && last[y] == v;
                assert(groups[m - 1]@[y] == v);
                law_every_fill_is_in_one_group(fills, by, groups, v as int);
            }
        }
        vstd::set_lib::lemma_set_disjoint_lens(listed(groups, before), last.to_set());
    } else {
        assert(obs.take(0) =~= Seq::empty());
    }
}

/// Observations leave no fill out and count none twice: together they have as many fills as
/// there are.
pub proof fn law_observations_hold_every_fill_once(
    fills: Seq<Fill>,
    by: By,
    groups: Seq<Vec<usize>>,
    sums: Seq<Sums>,
)
    requires
        is_grouping(fills, by, groups),
        fills.len() <= usize::MAX,
    ensures
        total_fills(observations(fills, groups, sums)) == fills.len(),
{
    let obs = observations(fills, groups, sums);
    lemma_listed_count(fills, by, groups, sums, groups.len());
    assert(obs.take(groups.len() as int) =~= obs);
    let all = listed(groups, groups.len());
    let range = vstd::set_lib::set_int_range(0, fills.len() as int);
    vstd::set_lib::lemma_int_range(0, fills.len() as int);
    assert(range =~= all.map(|v: usize| v as int)) by {
        assert forall|i: int| range.contains(i) implies all.map(|v: usize| v as int).contains(
            i,
        ) by {
            assert(is_listed(groups, i));
            lemma_listed(groups, groups.len(), i as usize);
            assert(all.contains(i as usize));
        }
        assert forall|i: int| all.map(|v: usize| v as int).contains(i) implies range.contains(
            i,
        ) by {
            let v = choose|v: usize| all.contains(v) && v as int == i;
            lemma_listed(groups, groups.len(), v);
            let (g, x) = choose|g: int, x: int|
                0 <= g < groups.len() && 0 <= x < groups[g]@.len() && #[trigger] groups[g]@[x] == v;
            assert(groups[g]@[x] < fills.len());
        }
    }
    vstd::set_lib::lemma_map_size(all, range, |v: usize| v as int);
}

/// The fills of the accounts, added up.
pub open spec fn account_fills(accounts: Seq<Account>) -> nat
    decreases accounts.len(),
{
    if accounts.len() == 0 {
        0
    } else {
        account_fills(accounts.drop_last()) + accounts.last().acc.fills as nat
    }
}

/// The fills of the observations of some addresses, added up.
spec fn shared(who: Seq<Seq<char>>, keys: Seq<Seq<char>>, obs: Seq<Observation>) -> nat
    decreases who.len(),
{
    if who.len() == 0 {
        0
    } else {
        shared(who.drop_last(), keys, obs) + total_fills(of_address(keys, obs, who.last()))
    }
}

proof fn lemma_shared_step(who: Seq<Seq<char>>, keys: Seq<Seq<char>>, obs: Seq<Observation>)
    requires
        who.no_duplicates(),
        keys.len() == obs.len(),
        keys.len() > 0,
    ensures
        shared(who, keys, obs) == shared(who, keys.drop_last(), obs.drop_last())
            + if who.contains(keys.last()) {
            obs.last().fills as nat
        } else {
            0
        },
    decreases who.len(),
{
    if who.len() > 0 {
        let rest = who.drop_last();
        lemma_shared_step(rest, keys, obs);
        let own = of_address(keys.drop_last(), obs.drop_last(), who.last());
        assert(own.push(obs.last()).drop_last() =~= own);
        assert(who[who.len() - 1] == who.last());
        if rest.contains(keys.last()) {
            let i = choose|i: int| 0 <= i < rest.len() && rest[i] == keys.last();
            assert(who[i] == keys.last());
        }
        if who.contains(keys.last()) && who.last() != keys.last() {
            let i = choose|i: int| 0 <= i < who.len() && who[i] == keys.last();
            assert(rest[i] == keys.last());
        }
    }
}

proof fn lemma_shared_total(who: Seq<Seq<char>>, keys: Seq<Seq<char>>, obs: Seq<Observation>)
    requires
        who.no_duplicates(),
        keys.len() == obs.len(),
        forall|i: int| 0 <= i < keys.len() ==> who.contains(#[trigger] keys[i]),
    ensures
        shared(who, keys, obs) == total_fills(obs),
    decreases keys.len(),
{
    if keys.len() == 0 {
        lemma_shared_nothing(who, keys, obs);
    } else {
        lemma_shared_step(who, keys, obs);
        assert(who.contains(keys[keys.len() - 1]));
        let rest = keys.drop_last();
        assert forall|i: int| 0 <= i < rest.len() implies who.contains(#[trigger] rest[i]) by {
            assert(rest[i] == keys[i]);
        }
        lemma_shared_total(who, rest, obs.drop_last());
    }
}

proof fn lemma_shared_nothing(who: Seq<Seq<char>>, keys: Seq<Seq<char>>, obs: Seq<Observation>)
    requires
        keys.len() == 0,
    ensures
        shared(who, keys, obs) == 0,
    decreases who.len(),
{
    if who.len() > 0 {
        lemma_shared_nothing(who.drop_last(), keys, obs);
    }
}

proof fn lemma_account_fills(
    accounts: Seq<Account>,
    keys: Seq<Seq<char>>,
    obs: Seq<Observation>,
    bps: Double,
)
    requires
        forall|i: int|
            0 <= i < accounts.len() ==> (#[trigger] accounts[i]).acc.of(
                of_address(keys, obs, accounts[i].address@),
                bps,
            ),
    ensures
        account_fills(accounts) == shared(names(accounts), keys, obs),
    decreases accounts.len(),
{
    if accounts.len() > 0 {
        let rest = accounts.drop_last();
        assert forall|i: int| 0 <= i < rest.len() implies (#[trigger] rest[i]).acc.of(
            of_address(keys, obs, rest[i].address@),
            bps,
        ) by {
            assert(rest[i] == accounts[i]);
        }
        lemma_account_fills(rest, keys, obs, bps);
        assert(names(accounts).drop_last() =~= names(rest));
        assert(accounts[accounts.len() - 1].acc.of(
            of_address(keys, obs, accounts.last().address@),
            bps,
        ));
    }
}

/// Every fill is on the account of one taker and of one maker: the fills of the accounts of
/// either side add up to all there are.
pub proof fn law_accounts_hold_every_fill_once(
    fills: Seq<Fill>,
    by: By,
    groups: Seq<Vec<usize>>,
    sums: Seq<Sums>,
    side: Side,
    bps: Double,
    table: Table,
)
    requires
        is_grouping(fills, by, groups),
        fills.len() <= usize::MAX,
        table.tallies(addresses(side, fills, groups), observations(fills, groups, sums), bps),
    ensures
        account_fills(table.accounts@) == fills.len(),
{
    let keys = addresses(side, fills, groups);
    let obs = observations(fills, groups, sums);
    let who = names(table.accounts@);
    lemma_account_fills(table.accounts@, keys, obs, bps);
    lemma_first_seen_distinct(keys);
    assert forall|i: int| 0 <= i < keys.len() implies who.contains(#[trigger] keys[i]) by {
        lemma_first_seen_covers(keys, keys[i]);
    }
    lemma_shared_total(who, keys, obs);
    law_observations_hold_every_fill_once(fills, by, groups, sums);
}

/// An observation says of its decision what the first fill says, at each horizon for itself,
/// and has all the fills of the group.
pub proof fn law_an_observation_is_of_its_first_fill(
    fills: Vec<Fill>,
    group: Vec<usize>,
    sums: Sums,
    r: Observation,
    i: int,
)
    requires
        call_ensures(observe, (&fills, &group, sums), r),
        0 <= i < 3,
    ensures
        r.mo@[i] == fills@[group@[0] as int].mo@[i],
        r.pre == fills@[group@[0] as int].pre,
        r.twap == fills@[group@[0] as int].twap,
        r.fills == group@.len(),
        r.notional == sums.notional,
        r.eff == sums.eff,
{
    assert(group@.len() == group.len());
}

/// A group of fills with its sums.
pub type Summed = (Vec<usize>, Sums);

/// The first fill of a group.
pub open spec fn head_of(fills: Seq<Fill>, z: Summed) -> Fill {
    fills[z.0@[0] as int]
}

/// Whether `acc` is what groups of fills add up to, each told by its first fill and its sums: at
/// each horizon the markouts of the first fills; the moves before those that have one; as many
/// pick-offs as first fills were followed within a second by a move above `bps`.
pub open spec fn adds_up(acc: Acc, fills: Seq<Fill>, zs: Seq<Summed>, bps: Double) -> bool {
    &&& acc.n == zs.len()
    &&& acc.fills == zs.fold_left(0int, |n: int, z: Summed| n + z.0@.len())
    &&& acc.notional@.len() == zs.len()
    &&& acc.eff@.len() == zs.len()
    &&& forall|n: int|
        0 <= n < zs.len() ==> (#[trigger] zs[n]).1.notional == acc.notional@[n] && zs[n].1.eff
            == acc.eff@[n]
    &&& forall|i: int| 0 <= i < 3 ==> (#[trigger] acc.mo@[i])@.len() == zs.len()
    &&& forall|i: int, n: int|
        0 <= i < 3 && 0 <= n < zs.len() ==> #[trigger] acc.mo@[i]@[n] == head_of(
            fills,
            zs[n],
        ).mo@[i]
    &&& acc.pre@ == zs.filter_map(|z: Summed| head_of(fills, z).pre)
    &&& acc.pickoffs == zs.filter(
        |z: Summed|
            is_number(bps) && is_number(head_of(fills, z).mo@[1]) && units(bps) < units(
                head_of(fills, z).mo@[1],
            ),
    ).len()
    &&& acc.twap == zs.filter(|z: Summed| head_of(fills, z).twap).len()
}

spec fn observed(fills: Seq<Fill>, zs: Seq<Summed>) -> Seq<Observation> {
    zs.map_values(|z: Summed| observation(fills, z.0@, z.1))
}

proof fn lemma_observed_counts(fills: Seq<Fill>, zs: Seq<Summed>, bps: Double)
    ensures
        total_fills(observed(fills, zs)) == zs.fold_left(
            0int,
            |n: int, z: Summed| n + z.0@.len(),
        ),
        pre_moves(observed(fills, zs)) == zs.filter_map(|z: Summed| head_of(fills, z).pre),
        pickoffs(observed(fills, zs), bps) == zs.filter(
            |z: Summed|
                is_number(bps) && is_number(head_of(fills, z).mo@[1]) && units(bps) < units(
                    head_of(fills, z).mo@[1],
                ),
        ).len(),
        twaps(observed(fills, zs)) == zs.filter(|z: Summed| head_of(fills, z).twap).len(),
    decreases zs.len(),
{
    reveal(Seq::filter);
    let obs = observed(fills, zs);
    if zs.len() > 0 {
        let rest = zs.drop_last();
        lemma_observed_counts(fills, rest, bps);
        assert(obs.drop_last() =~= observed(fills, rest));
        let z = zs.last();
        assert(obs.last() == observation(fills, z.0@, z.1));
        assert(z.0@.len() == z.0.len());
        law_doubles_compare_as_numbers(bps, head_of(fills, z).mo@[1]);
        assert(pre_moves(obs) =~= zs.filter_map(|z: Summed| head_of(fills, z).pre));
    }
}

proof fn lemma_adds_up(acc: Acc, fills: Seq<Fill>, zs: Seq<Summed>, bps: Double)
    requires
        acc.of(observed(fills, zs), bps),
    ensures
        adds_up(acc, fills, zs, bps),
{
    let obs = observed(fills, zs);
    lemma_observed_counts(fills, zs, bps);
    assert forall|n: int| 0 <= n < zs.len() implies (#[trigger] zs[n]).1.notional
        == acc.notional@[n] && zs[n].1.eff == acc.eff@[n] by {
        assert(obs[n].notional == acc.notional@[n]);
        assert(obs[n].eff == acc.eff@[n]);
    }
    assert forall|i: int, n: int| 0 <= i < 3 && 0 <= n < zs.len() implies #[trigger] acc.mo@[i]@[n]
        == head_of(fills, zs[n]).mo@[i] by {
        assert(acc.mo@[i]@ == obs.map_values(|o: Observation| o.mo@[i]));
        assert(obs[n].mo@[i] == acc.mo@[i]@[n]);
    }
}

/// What all groups together add up to: one entry for each, told by its first fill.
pub proof fn law_the_total_is_of_all_groups(
    fills: Vec<Fill>,
    groups: Vec<Vec<usize>>,
    sums: Vec<Sums>,
    bps: Double,
    acc: Acc,
)
    requires
        call_ensures(total, (&fills, &groups, &sums, bps), acc),
        sums@.len() == groups@.len(),
    ensures
        adds_up(acc, fills@, groups@.zip_with(sums@), bps),
{
    let zs = groups@.zip_with(sums@);
    assert(observations(fills@, groups@, sums@) =~= observed(fills@, zs));
    lemma_adds_up(acc, fills@, zs, bps);
}

/// Whether a group is of an address: its first fill has it on the side that is looked at.
pub open spec fn is_of(side: Side, fills: Seq<Fill>, a: Seq<char>, z: Summed) -> bool {
    match side {
        Side::Taker => head_of(fills, z).taker@ == a,
        Side::Maker => head_of(fills, z).maker@ == a,
    }
}

proof fn lemma_of_address(
    side: Side,
    fills: Seq<Fill>,
    groups: Seq<Vec<usize>>,
    sums: Seq<Sums>,
    a: Seq<char>,
)
    requires
        groups.len() == sums.len(),
    ensures
        of_address(addresses(side, fills, groups), observations(fills, groups, sums), a)
            == observed(
            fills,
            groups.zip_with(sums).filter(|z: Summed| is_of(side, fills, a, z)),
        ),
    decreases groups.len(),
{
    reveal(Seq::filter);
    let zs = groups.zip_with(sums);
    let keys = addresses(side, fills, groups);
    let obs = observations(fills, groups, sums);
    let pred = |z: Summed| is_of(side, fills, a, z);
    if groups.len() > 0 {
        lemma_of_address(side, fills, groups.drop_last(), sums.drop_last(), a);
        assert(zs.drop_last() =~= groups.drop_last().zip_with(sums.drop_last()));
        assert(keys.drop_last() =~= addresses(side, fills, groups.drop_last()));
        assert(obs.drop_last() =~= observations(fills, groups.drop_last(), sums.drop_last()));
        assert(zs.last() == (groups.last(), sums.last()));
        let rest = zs.drop_last().filter(pred);
        assert(zs.filter(pred) == if pred(zs.last()) {
            rest.push(zs.last())
        } else {
            rest
        });
        assert(observed(fills, rest.push(zs.last())) =~= observed(fills, rest).push(
            observation(fills, zs.last().0@, zs.last().1),
        ));
    } else {
        assert(observed(fills, zs.filter(pred)) =~= Seq::empty());
    }
}

/// Each address is measured by its own orders and by no others: its account adds up the groups
/// whose first fill has it on the side that is looked at; and no address has two accounts.
pub proof fn law_accounts_are_of_their_own_orders(
    fills: Vec<Fill>,
    groups: Vec<Vec<usize>>,
    sums: Vec<Sums>,
    side: Side,
    bps: Double,
    table: Table,
    j: int,
    k: int,
    a: Seq<char>,
)
    requires
        call_ensures(tally, (&fills, &groups, &sums, side, bps), table),
        sums@.len() == groups@.len(),
        0 <= j < table.accounts@.len(),
        0 <= k < table.accounts@.len(),
        table.accounts@[j].address@ == a,
    ensures
        adds_up(
            table.accounts@[j].acc,
            fills@,
            groups@.zip_with(sums@).filter(|z: Summed| is_of(side, fills@, a, z)),
            bps,
        ),
        table.accounts@[j].address@ == table.accounts@[k].address@ ==> j == k,
{
    let zs = groups@.zip_with(sums@);
    lemma_of_address(side, fills@, groups@, sums@, a);
    let pred = |z: Summed| is_of(side, fills@, a, z);
    lemma_adds_up(table.accounts@[j].acc, fills@, zs.filter(pred), bps);
    let x = table.accounts@[j];
    let y = table.accounts@[k];
    assert(table.places@[x.address@] == j && table.places@[y.address@] == k);
}

/// One more observation is one more of everything that it has: of its markouts, at each horizon
/// for itself; of its move before, where it has one; and a pick-off exactly where its markout
/// at one second is above the threshold.
pub proof fn law_an_observation_counts_once(a: &mut Acc, o: Observation, bps: Double, i: int)
    requires
        call_ensures(Acc::push, (a, o, bps), ()),
        0 <= i < 3,
    ensures
        final(a).n == old(a).n + 1,
        final(a).fills == old(a).fills + o.fills,
        final(a).notional@ == old(a).notional@.push(o.notional),
        final(a).eff@ == old(a).eff@.push(o.eff),
        final(a).mo@[i]@ == old(a).mo@[i]@.push(o.mo@[i]),
        o.pre is Some ==> final(a).pre@ == old(a).pre@.push(o.pre->0),
        o.pre is None ==> final(a).pre@ == old(a).pre@,
        final(a).pickoffs - old(a).pickoffs == (if is_number(bps) && is_number(o.mo@[1]) && units(
            bps,
        ) < units(o.mo@[1]) {
            1int
        } else {
            0
        }),
        final(a).twap - old(a).twap == (if o.twap {
            1int
        } else {
            0
        }),
{
    law_doubles_compare_as_numbers(bps, o.mo@[1]);
    let m = final(a).mo@[i];
}

/// Nothing is observed at the start.
pub proof fn law_accounts_start_from_nothing(a: Acc, i: int, bps: Double)
    requires
        call_ensures(Acc::new, (), a),
        0 <= i < 3,
    ensures
        a.n == 0 && a.fills == 0 && a.pickoffs == 0 && a.twap == 0,
        a.notional@.len() == 0 && a.eff@.len() == 0 && a.mo@[i]@.len() == 0 && a.pre@.len() == 0,
{
    assert(a.of(Seq::empty(), bps));
    let none = Seq::<Observation>::empty();
    let m = a.mo@[i];
    assert(none.map_values(|o: Observation| o.mo@[i]).len() == 0);
}

/// An account is found by its address, and by nothing else.
pub proof fn law_accounts_are_found_by_address(
    table: Table,
    address: &str,
    r: Option<usize>,
    j: int,
)
    requires
        call_ensures(Table::find, (&table, address), r),
        table.indexed(),
        0 <= j < table.accounts@.len(),
    ensures
        table.accounts@[j].address@ == address@ ==> r == Some(j as usize),
        r matches Some(i) ==> i < table.accounts@.len() && table.accounts@[i as int].address@
            == address@,
        r is None ==> table.accounts@[j].address@ != address@,
{
    assert(names(table.accounts@)[j] == table.accounts@[j].address@);
    let x = table.accounts@[j];
    if let Some(i) = r {
        let y = table.accounts@[i as int];
    }
}

/// Later keys leave those that were seen before where they are: what is first seen stands in the
/// order in which it is.
pub proof fn law_first_seen_keeps_its_order<K>(keys: Seq<K>, more: Seq<K>)
    ensures
        first_seen(keys).len() <= first_seen(keys + more).len(),
        first_seen(keys + more).take(first_seen(keys).len() as int) == first_seen(keys),
    decreases more.len(),
{
    let all = keys + more;
    if more.len() == 0 {
        assert(all =~= keys);
        assert(first_seen(all).take(first_seen(keys).len() as int) =~= first_seen(keys));
    } else {
        assert(all.drop_last() =~= keys + more.drop_last());
        law_first_seen_keeps_its_order(keys, more.drop_last());
        assert(first_seen(all).take(first_seen(keys).len() as int) =~= first_seen(
            all.drop_last(),
        ).take(first_seen(keys).len() as int));
    }
}

} // verus!
