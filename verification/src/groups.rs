//! Groups of fills: observations for statistics.
//!
//! Several fills share one observation when they come from the same aggressive order: a sweep
//! that hits many resting orders in one millisecond is one decision, and its markouts are
//! identical by construction. Counting them separately inflates every t-statistic.
use vstd::prelude::*;

use std::collections::HashMap;

use crate::classifier::Fill;
use crate::text::same;

verus! {

/// What makes fills one observation.
#[derive(Clone, Copy, Debug, PartialEq, Eq, Structural)]
pub enum By {
    /// One aggressive order: the same taker in the same millisecond.
    Order,
    /// One resting side hit by one order: the same maker, millisecond and taker.
    Hit,
}

/// Whether two fills are one observation.
pub open spec fn together(by: By, a: Fill, b: Fill) -> bool {
    a.ms == b.ms && a.taker@ == b.taker@ && (by == By::Hit ==> a.maker@ == b.maker@)
}

/// Whether `groups` partitions the positions of `fills` into observations: every position is
/// in a group; a group lists positions in ascending order, and its fills are one observation
/// with its first; fills of different groups are not; the groups stand in the order of their
/// first positions.
pub open spec fn is_grouping(fills: Seq<Fill>, by: By, groups: Seq<Vec<usize>>) -> bool {
    &&& forall|g: int| 0 <= g < groups.len() ==> (#[trigger] groups[g])@.len() > 0
    &&& forall|g: int, x: int|
        0 <= g < groups.len() && 0 <= x < groups[g]@.len() ==> (#[trigger] groups[g]@[x])
            < fills.len() && together(by, fills[groups[g]@[0] as int], fills[groups[g]@[x] as int])
    &&& forall|g: int, x: int, y: int|
        0 <= g < groups.len() && 0 <= x < y < groups[g]@.len() ==> (#[trigger] groups[g]@[x]) < (
        #[trigger] groups[g]@[y])
    &&& forall|g: int, h: int|
        0 <= g < h < groups.len() ==> (#[trigger] groups[g])@[0] < (#[trigger] groups[h])@[0]
            && !together(by, fills[groups[g]@[0] as int], fills[groups[h]@[0] as int])
    &&& forall|i: int| 0 <= i < fills.len() ==> #[trigger] is_listed(groups, i)
}

/// Whether a position is in a group.
pub open spec fn is_listed(groups: Seq<Vec<usize>>, i: int) -> bool {
    exists|g: int, x: int|
        0 <= g < groups.len() && 0 <= x < groups[g]@.len() && #[trigger] groups[g]@[x] == i
}

fn are_together(by: By, a: &Fill, b: &Fill) -> (r: bool)
    ensures
        r == together(by, *a, *b),
{
    a.ms == b.ms && same(a.taker.as_str(), b.taker.as_str()) && (by == By::Order || same(
        a.maker.as_str(),
        b.maker.as_str(),
    ))
}

/// Whether `at` finds the groups by the millisecond of their first fills.
spec fn finds(fills: Seq<Fill>, groups: Seq<Vec<usize>>, at: Map<u64, Vec<usize>>) -> bool {
    &&& forall|ms: u64, k: int|
        at.contains_key(ms) && 0 <= k < at[ms]@.len() ==> (#[trigger] at[ms]@[k]) < groups.len()
            && fills[groups[at[ms]@[k] as int]@[0] as int].ms == ms
    &&& forall|g: int|
        0 <= g < groups.len() ==> at.contains_key(fills[(#[trigger] groups[g])@[0] as int].ms)
            && exists|k: int|
            0 <= k < at[fills[groups[g]@[0] as int].ms]@.len()
                && #[trigger] at[fills[groups[g]@[0] as int].ms]@[k] == g
}

/// The group of a fill, where there is one.
fn group_of(
    fills: &Vec<Fill>,
    by: By,
    groups: &Vec<Vec<usize>>,
    at: &HashMap<u64, Vec<usize>>,
    i: usize,
) -> (r: Option<usize>)
    requires
        i < fills@.len(),
        forall|g: int|
            0 <= g < groups@.len() ==> (#[trigger] groups@[g])@.len() > 0 && groups@[g]@[0]
                < fills@.len(),
        finds(fills@, groups@, at@),
    ensures
        match r {
            Some(g) => g < groups@.len() && together(
                by,
                fills@[groups@[g as int]@[0] as int],
                fills@[i as int],
            ),
            None => forall|g: int|
                0 <= g < groups@.len() ==> !together(
                    by,
                    fills@[(#[trigger] groups@[g])@[0] as int],
                    fills@[i as int],
                ),
        },
{
    broadcast use vstd::std_specs::hash::group_hash_axioms;

    let ms: u64 = fills[i].ms;
    if let Some(candidates) = at.get(&ms) {
        let mut k: usize = 0;
        while k < candidates.len()
            invariant
                i < fills@.len(),
                ms == fills@[i as int].ms,
                forall|g: int|
                    0 <= g < groups@.len() ==> (#[trigger] groups@[g])@.len() > 0 && groups@[g]@[0]
                        < fills@.len(),
                finds(fills@, groups@, at@),
                at@.contains_key(ms),
                at@[ms] == *candidates,
                k <= candidates@.len(),
                forall|j: int|
                    0 <= j < k ==> !together(
                        by,
                        fills@[groups@[#[trigger] candidates@[j] as int]@[0] as int],
                        fills@[i as int],
                    ),
            decreases candidates@.len() - k,
        {
            let g: usize = candidates[k];
            assert(at@[ms]@[k as int] == g);
            if are_together(by, &fills[groups[g][0]], &fills[i]) {
                return Some(g);
            }
            k += 1;
        }
        assert forall|g: int| 0 <= g < groups@.len() implies !together(
            by,
            fills@[(#[trigger] groups@[g])@[0] as int],
            fills@[i as int],
        ) by {
            if fills@[groups@[g]@[0] as int].ms == ms {
                let j = choose|j: int| 0 <= j < at@[ms]@.len() && #[trigger] at@[ms]@[j] == g;
                assert(candidates@[j] == g);
            }
        }
        None
    } else {
        None
    }
}

/// Groups fills into observations, in the order in which each is first seen.
pub fn group_by(fills: &Vec<Fill>, by: By) -> (r: Vec<Vec<usize>>)
    ensures
        is_grouping(fills@, by, r@),
{
    broadcast use vstd::std_specs::hash::group_hash_axioms;

    let mut at: HashMap<u64, Vec<usize>> = HashMap::new();
    let mut groups: Vec<Vec<usize>> = Vec::new();
    for i in 0..fills.len()
        invariant
            forall|g: int|
                0 <= g < groups@.len() ==> (#[trigger] groups@[g])@.len() > 0 && groups@[g]@[0] < i,
            forall|g: int, x: int|
                0 <= g < groups@.len() && 0 <= x < groups@[g]@.len() ==> (
                #[trigger] groups@[g]@[x]) < i && together(
                    by,
                    fills@[groups@[g]@[0] as int],
                    fills@[groups@[g]@[x] as int],
                ),
            forall|g: int, x: int, y: int|
                0 <= g < groups@.len() && 0 <= x < y < groups@[g]@.len() ==> (
                #[trigger] groups@[g]@[x]) < (#[trigger] groups@[g]@[y]),
            forall|g: int, h: int|
                0 <= g < h < groups@.len() ==> (#[trigger] groups@[g])@[0] < (
                #[trigger] groups@[h])@[0] && !together(
                    by,
                    fills@[groups@[g]@[0] as int],
                    fills@[groups@[h]@[0] as int],
                ),
            forall|j: int| 0 <= j < i ==> #[trigger] is_listed(groups@, j),
            finds(fills@, groups@, at@),
    {
        let ghost before = groups@;
        match group_of(fills, by, &groups, &at, i) {
            Some(g) => {
                groups[g].push(i);
                proof {
                    let gi = g as int;
                    assert(groups@.len() == before.len());
                    assert(groups@[gi]@ == before[gi]@.push(i));
                    assert(groups@[gi]@[0] == before[gi]@[0]);
                    assert(forall|h: int|
                        0 <= h < before.len() && h != gi ==> #[trigger] groups@[h] == before[h]);
                    assert forall|j: int| 0 <= j < i + 1 implies #[trigger] is_listed(
                        groups@,
                        j,
                    ) by {
                        if j < i {
                            assert(is_listed(before, j));
                            let (h, x) = choose|h: int, x: int|
                                0 <= h < before.len() && 0 <= x < before[h]@.len()
                                    && #[trigger] before[h]@[x] == j;
                            assert(groups@[h]@[x] == j);
                        } else {
                            assert(groups@[gi]@[before[gi]@.len() as int] == j);
                        }
                    }
                    assert forall|h: int, x: int|
                        0 <= h < groups@.len() && 0 <= x < groups@[h]@.len() implies (
                    #[trigger] groups@[h]@[x]) < i + 1 && together(
                        by,
                        fills@[groups@[h]@[0] as int],
                        fills@[groups@[h]@[x] as int],
                    ) by {
                        if h == gi && x == before[gi]@.len() {
                        } else {
                            assert(groups@[h]@[x] == before[h]@[x]);
                            assert(groups@[h]@[0] == before[h]@[0]);
                        }
                    }
                    assert forall|h: int, x: int, y: int|
                        0 <= h < groups@.len() && 0 <= x < y < groups@[h]@.len() implies (
                    #[trigger] groups@[h]@[x]) < (#[trigger] groups@[h]@[y]) by {
                        assert(groups@[h]@[x] == before[h]@[x]);
                        if h == gi && y == before[gi]@.len() {
                        } else {
                            assert(groups@[h]@[y] == before[h]@[y]);
                        }
                    }
                    assert forall|a: int, b: int| 0 <= a < b < groups@.len() implies (
                    #[trigger] groups@[a])@[0] < (#[trigger] groups@[b])@[0] && !together(
                        by,
                        fills@[groups@[a]@[0] as int],
                        fills@[groups@[b]@[0] as int],
                    ) by {
                        assert(groups@[a]@[0] == before[a]@[0]);
                        assert(groups@[b]@[0] == before[b]@[0]);
                    }
                    assert(finds(fills@, groups@, at@)) by {
                        assert forall|h: int| 0 <= h < groups@.len() implies at@.contains_key(
                            fills@[(#[trigger] groups@[h])@[0] as int].ms,
                        ) && exists|k: int|
                            0 <= k < at@[fills@[groups@[h]@[0] as int].ms]@.len()
                                && #[trigger] at@[fills@[groups@[h]@[0] as int].ms]@[k] == h by {
                            assert(groups@[h]@[0] == before[h]@[0]);
                            assert(before[h]@.len() > 0);
                        }
                        assert forall|ms: u64, k: int|
                            at@.contains_key(ms) && 0 <= k < at@[ms]@.len() implies (
                        #[trigger] at@[ms]@[k]) < groups@.len()
                            && fills@[groups@[at@[ms]@[k] as int]@[0] as int].ms == ms by {
                            let h = at@[ms]@[k] as int;
                            assert(groups@[h]@[0] == before[h]@[0]);
                        }
                    }
                }
            },
            None => {
                let ms: u64 = fills[i].ms;
                let ghost at0 = at@;
                let mut here: Vec<usize> = match at.remove(&ms) {
                    Some(v) => v,
                    None => Vec::new(),
                };
                let ghost here0 = here@;
                here.push(groups.len());
                at.insert(ms, here);
                let mut first: Vec<usize> = Vec::new();
                first.push(i);
                groups.push(first);
                proof {
                    let n = before.len() as int;
                    assert(forall|h: int| 0 <= h < n ==> #[trigger] groups@[h] == before[h]);
                    assert(groups@[n]@ =~= seq![i]);
                    assert(groups@[n]@[0] == i);
                    assert forall|j: int| 0 <= j < i + 1 implies #[trigger] is_listed(
                        groups@,
                        j,
                    ) by {
                        if j < i {
                            assert(is_listed(before, j));
                            let (h, x) = choose|h: int, x: int|
                                0 <= h < before.len() && 0 <= x < before[h]@.len()
                                    && #[trigger] before[h]@[x] == j;
                            assert(groups@[h]@[x] == j);
                        }
                    }
                    assert forall|h: int, x: int|
                        0 <= h < groups@.len() && 0 <= x < groups@[h]@.len() implies (
                    #[trigger] groups@[h]@[x]) < i + 1 && together(
                        by,
                        fills@[groups@[h]@[0] as int],
                        fills@[groups@[h]@[x] as int],
                    ) by {
                        if h < n {
                            assert(groups@[h]@[x] == before[h]@[x]);
                        }
                    }
                    assert forall|a: int, b: int| 0 <= a < b < groups@.len() implies (
                    #[trigger] groups@[a])@[0] < (#[trigger] groups@[b])@[0] && !together(
                        by,
                        fills@[groups@[a]@[0] as int],
                        fills@[groups@[b]@[0] as int],
                    ) by {
                        assert(groups@[a] == before[a]);
                        assert(before[a]@[0] < i);
                    }
                    assert forall|m: u64, k: int|
                        at@.contains_key(m) && 0 <= k < at@[m]@.len() implies (
                    #[trigger] at@[m]@[k]) < groups@.len()
                        && fills@[groups@[at@[m]@[k] as int]@[0] as int].ms == m by {
                        if m == ms {
                            if k < here0.len() {
                                assert(at0.contains_key(m));
                                assert(at0[m]@[k] == here0[k]);
                            }
                        } else {
                            assert(at0.contains_key(m));
                            assert(at@[m] == at0[m]);
                            assert(at0[m]@[k] < before.len());
                        }
                    }
                    assert forall|h: int| 0 <= h < groups@.len() implies at@.contains_key(
                        fills@[(#[trigger] groups@[h])@[0] as int].ms,
                    ) && exists|k: int|
                        0 <= k < at@[fills@[groups@[h]@[0] as int].ms]@.len()
                            && #[trigger] at@[fills@[groups@[h]@[0] as int].ms]@[k] == h by {
                        let m = fills@[groups@[h]@[0] as int].ms;
                        if h < n {
                            assert(before[h]@.len() > 0);
                            assert(at0.contains_key(m));
                            let k = choose|k: int|
                                0 <= k < at0[m]@.len() && #[trigger] at0[m]@[k] == h;
                            assert(at@[m]@[k] == h);
                        } else {
                            assert(at@[m]@[here0.len() as int] == h);
                        }
                    }
                }
            },
        }
    }
    groups
}

// ---- laws ----

/// Every fill is in one observation and in no other: a sweep counts once, and nothing is
/// left out.
pub proof fn law_every_fill_is_in_one_group(
    fills: Seq<Fill>,
    by: By,
    groups: Seq<Vec<usize>>,
    i: int,
)
    requires
        is_grouping(fills, by, groups),
        0 <= i < fills.len(),
    ensures
        is_listed(groups, i),
        forall|g: int, x: int, h: int, y: int|
            0 <= g < groups.len() && 0 <= x < groups[g]@.len() && 0 <= h < groups.len() && 0 <= y
                < groups[h]@.len() && #[trigger] groups[g]@[x] == i && #[trigger] groups[h]@[y] == i
                ==> g == h && x == y,
{
    assert(is_listed(groups, i));
    assert forall|g: int, x: int, h: int, y: int|
        0 <= g < groups.len() && 0 <= x < groups[g]@.len() && 0 <= h < groups.len() && 0 <= y
            < groups[h]@.len() && #[trigger] groups[g]@[x] == i && #[trigger] groups[h]@[y]
            == i implies g == h && x == y by {
        let a = fills[groups[g]@[0] as int];
        let b = fills[groups[h]@[0] as int];
        assert(together(by, a, fills[i]));
        assert(together(by, b, fills[i]));
        if g < h {
            assert(!together(by, a, b));
        } else if h < g {
            assert(!together(by, b, a));
        }
    }
}

/// Two fills share an observation exactly when they are one decision.
pub proof fn law_groups_hold_one_decision(
    fills: Seq<Fill>,
    by: By,
    groups: Seq<Vec<usize>>,
    g: int,
    x: int,
    h: int,
    y: int,
)
    requires
        is_grouping(fills, by, groups),
        0 <= g < groups.len(),
        0 <= x < groups[g]@.len(),
        0 <= h < groups.len(),
        0 <= y < groups[h]@.len(),
    ensures
        together(by, fills[groups[g]@[x] as int], fills[groups[h]@[y] as int]) <==> g == h,
{
    let a = fills[groups[g]@[0] as int];
    let b = fills[groups[h]@[0] as int];
    assert(together(by, a, fills[groups[g]@[x] as int]));
    assert(together(by, b, fills[groups[h]@[y] as int]));
    if g < h {
        assert(!together(by, a, b));
    } else if h < g {
        assert(!together(by, b, a));
    }
}

/// Fills of one taker in one millisecond are one order, and fills of one maker, taker and
/// millisecond are one hit: two fills stand in one group exactly then. A group lists its fills in
/// their order, and the groups stand in the order of their first fills.
pub proof fn law_orders_and_hits_are_grouped(
    fills: Vec<Fill>,
    by: By,
    groups: Vec<Vec<usize>>,
    g: int,
    x: int,
    h: int,
    y: int,
)
    requires
        call_ensures(group_by, (&fills, by), groups),
        0 <= g < groups@.len(),
        0 <= x < groups@[g]@.len(),
        0 <= h < groups@.len(),
        0 <= y < groups@[h]@.len(),
    ensures
        groups@[g]@[x] < fills@.len(),
        ({
            let a = fills@[groups@[g]@[x] as int];
            let b = fills@[groups@[h]@[y] as int];
            &&& by == By::Order ==> (g == h <==> a.ms == b.ms && a.taker@ == b.taker@)
            &&& by == By::Hit ==> (g == h <==> a.ms == b.ms && a.taker@ == b.taker@ && a.maker@
                == b.maker@)
        }),
        g == h && x < y ==> groups@[g]@[x] < groups@[h]@[y],
        g < h ==> groups@[g]@[0] < groups@[h]@[0],
{
    law_groups_hold_one_decision(fills@, by, groups@, g, x, h, y);
    let i = groups@[g]@[x];
    let j = groups@[h]@[y];
    let a = groups@[g]@[0];
    let b = groups@[h]@[0];
}

/// No fill is left out of the groups, and none stands in them twice.
pub proof fn law_every_fill_is_grouped_once(
    fills: Vec<Fill>,
    by: By,
    groups: Vec<Vec<usize>>,
    i: int,
)
    requires
        call_ensures(group_by, (&fills, by), groups),
        0 <= i < fills@.len(),
    ensures
        exists|g: int, x: int|
            0 <= g < groups@.len() && 0 <= x < groups@[g]@.len() && #[trigger] groups@[g]@[x] == i,
        forall|g: int, x: int, h: int, y: int|
            0 <= g < groups@.len() && 0 <= x < groups@[g]@.len() && 0 <= h < groups@.len() && 0 <= y
                < groups@[h]@.len() && #[trigger] groups@[g]@[x] == i && #[trigger] groups@[h]@[y]
                == i ==> g == h && x == y,
{
    law_every_fill_is_in_one_group(fills@, by, groups@, i);
}

} // verus!
