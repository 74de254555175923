//! Stable orders, and the nearest rank of a quantile.
use vstd::prelude::*;

verus! {

/// Whether `a` comes before `b` when the positions of `keys` are ordered by key, and by
/// position where the keys are equal.
pub open spec fn precedes(keys: Seq<int>, a: int, b: int) -> bool {
    keys[a] < keys[b] || (keys[a] == keys[b] && a < b)
}

/// Whether `p` lists the positions `lo` to `hi` of `keys`, each once, in ascending order of
/// key, equal keys in the order of their positions.
pub open spec fn orders(keys: Seq<int>, p: Seq<usize>, lo: int, hi: int) -> bool {
    &&& p.len() == hi - lo
    &&& forall|i: int| 0 <= i < p.len() ==> lo <= #[trigger] p[i] < hi
    &&& forall|i: int, j: int|
        0 <= i < j < p.len() ==> precedes(keys, #[trigger] p[i] as int, #[trigger] p[j] as int)
}

/// Whether `p` is the stable ascending order of all positions of `keys`.
pub open spec fn is_order(keys: Seq<int>, p: Seq<usize>) -> bool {
    orders(keys, p, 0, keys.len() as int)
}

/// The stable ascending order of the positions of `keys`.
pub open spec fn order_of(keys: Seq<int>) -> Seq<usize> {
    choose|p: Seq<usize>| is_order(keys, p)
}

/// The numbers that the keys stand for.
pub open spec fn ints(keys: Seq<i128>) -> Seq<int> {
    keys.map_values(|k: i128| k as int)
}

/// An order lists every position.
pub proof fn lemma_order_covers(keys: Seq<int>, p: Seq<usize>, lo: int, hi: int, x: int)
    requires
        orders(keys, p, lo, hi),
        lo <= x < hi,
    ensures
        exists|i: int| 0 <= i < p.len() && #[trigger] p[i] == x,
{
    let q = p.map_values(|v: usize| v as int);
    assert(q.no_duplicates()) by {
        assert forall|i: int, j: int| 0 <= i < q.len() && 0 <= j < q.len() && i != j implies q[i]
            != q[j] by {
            if i < j {
                assert(precedes(keys, p[i] as int, p[j] as int));
            } else {
                assert(precedes(keys, p[j] as int, p[i] as int));
            }
        }
    }
    q.unique_seq_to_set();
    let all = vstd::set_lib::set_int_range(lo, hi);
    vstd::set_lib::lemma_int_range(lo, hi);
    assert(q.to_set().subset_of(all)) by {
        assert forall|v: int| q.to_set().contains(v) implies all.contains(v) by {
            let i = choose|i: int| 0 <= i < q.len() && q[i] == v;
            assert(lo <= p[i] < hi);
        }
    }
    vstd::set_lib::lemma_subset_equality(q.to_set(), all);
    assert(q.to_set().contains(x));
    let i = choose|i: int| 0 <= i < q.len() && q[i] == x;
    assert(p[i] == x);
}

/// There is only one stable order of given keys.
pub proof fn lemma_order_unique(keys: Seq<int>, p: Seq<usize>, q: Seq<usize>)
    requires
        is_order(keys, p),
        is_order(keys, q),
    ensures
        p == q,
{
    assert forall|i: int| 0 <= i < p.len() implies p[i] == q[i] by {
        lemma_orders_agree(keys, p, q, i);
    }
    assert(p =~= q);
}

proof fn lemma_orders_agree(keys: Seq<int>, p: Seq<usize>, q: Seq<usize>, i: int)
    requires
        is_order(keys, p),
        is_order(keys, q),
        0 <= i < p.len(),
    ensures
        p[i] == q[i],
    decreases i,
{
    assert forall|j: int| 0 <= j < i implies p[j] == q[j] by {
        lemma_orders_agree(keys, p, q, j);
    }
    lemma_order_covers(keys, q, 0, keys.len() as int, p[i] as int);
    let j = choose|j: int| 0 <= j < q.len() && #[trigger] q[j] == p[i];
    lemma_order_covers(keys, p, 0, keys.len() as int, q[i] as int);
    let k = choose|k: int| 0 <= k < p.len() && #[trigger] p[k] == q[i];
    if j < i {
        assert(p[j] == q[j]);
        assert(precedes(keys, p[j] as int, p[i] as int));
    }
    if k < i {
        assert(p[k] == q[k]);
        assert(precedes(keys, q[k] as int, q[i] as int));
    }
    if j > i {
        assert(precedes(keys, q[i] as int, q[j] as int));
        if k > i {
            assert(precedes(keys, p[i] as int, p[k] as int));
        }
    }
}

/// Merges the orders of two neighbouring ranges of positions.
fn merge(keys: &Vec<i128>, a: &Vec<usize>, b: &Vec<usize>, Ghost(lo): Ghost<int>, Ghost(mid): Ghost<
    int,
>, Ghost(hi): Ghost<int>) -> (r: Vec<usize>)
    requires
        0 <= lo <= mid <= hi <= keys@.len(),
        orders(ints(keys@), a@, lo, mid),
        orders(ints(keys@), b@, mid, hi),
    ensures
        orders(ints(keys@), r@, lo, hi),
{
    let ghost ks = ints(keys@);
    let mut r: Vec<usize> = Vec::new();
    let mut i: usize = 0;
    let mut j: usize = 0;
    while i < a.len() || j < b.len()
        invariant
            ks == ints(keys@),
            0 <= lo <= mid <= hi <= keys@.len(),
            orders(ks, a@, lo, mid),
            orders(ks, b@, mid, hi),
            i <= a@.len(),
            j <= b@.len(),
            r@.len() == i + j,
            forall|x: int| 0 <= x < r@.len() ==> lo <= #[trigger] r@[x] < hi,
            forall|x: int, y: int|
                0 <= x < y < r@.len() ==> precedes(
                    ks,
                    #[trigger] r@[x] as int,
                    #[trigger] r@[y] as int,
                ),
            forall|x: int, y: int|
                0 <= x < r@.len() && i <= y < a@.len() ==> precedes(
                    ks,
                    #[trigger] r@[x] as int,
                    #[trigger] a@[y] as int,
                ),
            forall|x: int, y: int|
                0 <= x < r@.len() && j <= y < b@.len() ==> precedes(
                    ks,
                    #[trigger] r@[x] as int,
                    #[trigger] b@[y] as int,
                ),
        decreases a@.len() - i + b@.len() - j,
    {
        let from_a: bool = j >= b.len() || (i < a.len() && keys[a[i]] <= keys[b[j]]);
        let ghost before = r@;
        if from_a {
            assert(j < b@.len() ==> precedes(ks, a@[i as int] as int, b@[j as int] as int));
            r.push(a[i]);
            i += 1;
        } else {
            assert(i < a@.len() ==> precedes(ks, b@[j as int] as int, a@[i as int] as int));
            r.push(b[j]);
            j += 1;
        }
        assert(forall|x: int| 0 <= x < before.len() ==> r@[x] == before[x]);
    }
    r
}

/// The stable order of the positions `lo` to `hi` of `keys`.
fn order_range(keys: &Vec<i128>, lo: usize, hi: usize) -> (r: Vec<usize>)
    requires
        lo <= hi <= keys@.len(),
    ensures
        orders(ints(keys@), r@, lo as int, hi as int),
    decreases hi - lo,
{
    if hi - lo <= 1 {
        let mut r: Vec<usize> = Vec::new();
        if lo < hi {
            r.push(lo);
        }
        r
    } else {
        let mid: usize = lo + (hi - lo) / 2;
        let a = order_range(keys, lo, mid);
        let b = order_range(keys, mid, hi);
        merge(keys, &a, &b, Ghost(lo as int), Ghost(mid as int), Ghost(hi as int))
    }
}

/// The stable ascending order of the positions of `keys`.
pub fn stable_order(keys: &Vec<i128>) -> (r: Vec<usize>)
    ensures
        is_order(ints(keys@), r@),
        r@ == order_of(ints(keys@)),
{
    let r = order_range(keys, 0, keys.len());
    proof {
        lemma_order_unique(ints(keys@), r@, order_of(ints(keys@)));
    }
    r
}

// ---- quantiles ----

/// The position of the quantile `percent` among `n` sorted values: `percent` hundredths of
/// the way from the first to the last, rounded to the nearest position, halves up.
pub open spec fn nearest_rank(n: nat, percent: nat) -> int {
    (2 * (n - 1) * percent + 100) / 200
}

/// The place of a quantile is one of the places.
pub proof fn lemma_nearest_rank(n: nat, percent: nat)
    requires
        n > 0,
        percent <= 100,
    ensures
        0 <= nearest_rank(n, percent) < n,
{
    assert(0 <= 2 * (n - 1) * percent <= 2 * (n - 1) * 100) by (nonlinear_arith)
        requires
            n > 0,
            percent <= 100,
    ;
}

/// Computes the position of a quantile.
pub fn rank(n: usize, percent: u64) -> (r: usize)
    requires
        n > 0,
        percent <= 100,
    ensures
        r == nearest_rank(n as nat, percent as nat),
        r < n,
{
    proof {
        lemma_nearest_rank(n as nat, percent as nat);
    }
    assert(2 * (n - 1) * percent <= 200 * 0xffff_ffff_ffff_ffff) by (nonlinear_arith)
        requires
            0 < n <= 0xffff_ffff_ffff_ffff,
            percent <= 100,
    ;
    let twice: u128 = 2 * (n as u128 - 1) * (percent as u128);
    ((twice + 100) / 200) as usize
}

/// The numbers of a sequence in ascending order.
pub open spec fn ascending(v: Seq<u64>) -> Seq<u64> {
    let p = order_of(v.map_values(|x: u64| x as int));
    p.map_values(|i: usize| v[i as int])
}

/// The quantile `percent` of `v`, or zero when there are no values.
pub open spec fn quantile(v: Seq<u64>, percent: nat) -> u64 {
    if v.len() == 0 {
        0
    } else {
        ascending(v)[nearest_rank(v.len(), percent)]
    }
}

/// The value at the nearest rank of the quantile `percent` in `v`; zero when `v` is empty.
/// Sorts in place.
pub fn percentile(v: &mut Vec<u64>, percent: u64) -> (r: u64)
    requires
        percent <= 100,
    ensures
        r == quantile(old(v)@, percent as nat),
        final(v)@ == ascending(old(v)@),
{
    let mut keys: Vec<i128> = Vec::new();
    for i in 0..v.len()
        invariant
            keys@.len() == i,
            forall|j: int| 0 <= j < i ==> #[trigger] keys@[j] == v@[j],
    {
        keys.push(v[i] as i128);
    }
    assert(ints(keys@) =~= v@.map_values(|x: u64| x as int));
    let p = stable_order(&keys);
    let mut out: Vec<u64> = Vec::new();
    for i in 0..p.len()
        invariant
            is_order(v@.map_values(|x: u64| x as int), p@),
            out@.len() == i,
            forall|j: int| 0 <= j < i ==> #[trigger] out@[j] == v@[p@[j] as int],
    {
        out.push(v[p[i]]);
    }
    assert(out@ =~= ascending(v@));
    let n: usize = out.len();
    *v = out;
    if n == 0 {
        0
    } else {
        v[rank(n, percent)]
    }
}

// ---- laws ----

/// How many positions of an order come before one of key `key` that stands last of all.
spec fn place(keys: Seq<int>, p: Seq<usize>, key: int) -> nat
    decreases p.len(),
{
    if p.len() == 0 {
        0
    } else if keys[p.last() as int] <= key {
        p.len()
    } else {
        place(keys, p.drop_last(), key)
    }
}

proof fn lemma_place(keys: Seq<int>, p: Seq<usize>, key: int)
    ensures
        place(keys, p, key) <= p.len(),
        place(keys, p, key) > 0 ==> keys[p[place(keys, p, key) - 1] as int] <= key,
        forall|i: int| place(keys, p, key) <= i < p.len() ==> keys[#[trigger] p[i] as int] > key,
    decreases p.len(),
{
    if p.len() > 0 && keys[p.last() as int] > key {
        lemma_place(keys, p.drop_last(), key);
        let k = place(keys, p, key);
        assert forall|i: int| k <= i < p.len() implies keys[#[trigger] p[i] as int] > key by {
            if i < p.len() - 1 {
                assert(p.drop_last()[i] == p[i]);
            }
        }
    }
}

/// Keys have an order.
pub proof fn lemma_order_exists(keys: Seq<int>)
    requires
        keys.len() <= usize::MAX,
    ensures
        is_order(keys, order_of(keys)),
    decreases keys.len(),
{
    if keys.len() == 0 {
        assert(is_order(keys, Seq::<usize>::empty()));
    } else {
        let front = keys.drop_last();
        let last = keys.len() - 1;
        lemma_order_exists(front);
        let p = order_of(front);
        lemma_place(keys, p, keys[last]);
        let k = place(keys, p, keys[last]) as int;
        let q = p.take(k).push(last as usize) + p.skip(k);
        assert forall|i: int| 0 <= i < k implies keys[#[trigger] p[i] as int] <= keys[last] by {
            if i < k - 1 {
                assert(precedes(front, p[i] as int, p[k - 1] as int));
            }
        }
        assert forall|i: int| 0 <= i < q.len() implies 0 <= #[trigger] q[i] < keys.len() by {
            if i < k {
                assert(q[i] == p[i]);
            } else if i > k {
                assert(q[i] == p[i - 1]);
            }
        }
        assert forall|i: int, j: int| 0 <= i < j < q.len() implies precedes(
            keys,
            #[trigger] q[i] as int,
            #[trigger] q[j] as int,
        ) by {
            if j < k {
                assert(q[i] == p[i] && q[j] == p[j]);
                assert(precedes(front, p[i] as int, p[j] as int));
            } else if j == k {
                assert(q[i] == p[i]);
            } else if i < k {
                assert(q[i] == p[i] && q[j] == p[j - 1]);
                assert(precedes(front, p[i] as int, p[j - 1] as int));
            } else if i == k {
                assert(q[j] == p[j - 1]);
            } else {
                assert(q[i] == p[i - 1] && q[j] == p[j - 1]);
                assert(precedes(front, p[i - 1] as int, p[j - 1] as int));
            }
        }
        assert(is_order(keys, q));
    }
}

/// Quantiles ascend with their percentage, and each is one of the values.
pub proof fn law_quantiles_ascend(v: Seq<u64>, a: nat, b: nat)
    requires
        v.len() <= usize::MAX,
        a <= b <= 100,
    ensures
        quantile(v, a) <= quantile(v, b),
        v.len() > 0 ==> v.contains(quantile(v, a)),
{
    if v.len() > 0 {
        let keys = v.map_values(|x: u64| x as int);
        let p = order_of(keys);
        lemma_order_exists(keys);
        lemma_nearest_rank(v.len(), a);
        lemma_nearest_rank(v.len(), b);
        let i = nearest_rank(v.len(), a);
        let j = nearest_rank(v.len(), b);
        assert(2 * (v.len() - 1) * a <= 2 * (v.len() - 1) * b) by (nonlinear_arith)
            requires
                v.len() > 0,
                a <= b,
        ;
        assert(i <= j);
        assert(v[p[i] as int] == quantile(v, a));
        if i < j {
            assert(precedes(keys, p[i] as int, p[j] as int));
        }
    }
}

/// Whether `keys` does not fall along `p`.
pub open spec fn rises(keys: Seq<int>, p: Seq<usize>) -> bool {
    forall|i: int, j: int|
        0 <= i <= j < p.len() ==> keys[#[trigger] p[i] as int] <= keys[#[trigger] p[j] as int]
}

proof fn lemma_distinct(keys: Seq<int>, p: Seq<usize>, n: int)
    requires
        is_order(keys, p),
        0 <= n <= p.len(),
    ensures
        p.take(n).no_duplicates(),
        p.take(n).to_set().finite(),
        p.take(n).to_set().len() == n,
{
    let t = p.take(n);
    assert forall|i: int, j: int| 0 <= i < t.len() && 0 <= j < t.len() && i != j implies t[i]
        != t[j] by {
        if i < j {
            assert(precedes(keys, p[i] as int, p[j] as int));
        } else {
            assert(precedes(keys, p[j] as int, p[i] as int));
        }
    }
    t.unique_seq_to_set();
}

/// Two listings of the same positions along which `keys` does not fall: at no place is the one
/// below the other.
proof fn lemma_not_below(
    keys: Seq<int>,
    a: Seq<int>,
    p: Seq<usize>,
    b: Seq<int>,
    q: Seq<usize>,
    k: int,
)
    requires
        is_order(a, p),
        is_order(b, q),
        a.len() == b.len(),
        rises(keys, p),
        rises(keys, q),
        0 <= k < p.len(),
    ensures
        keys[p[k] as int] >= keys[q[k] as int],
{
    if keys[p[k] as int] < keys[q[k] as int] {
        lemma_distinct(a, p, k + 1);
        lemma_distinct(b, q, k);
        let front = p.take(k + 1);
        let few = front.to_set();
        let room = q.take(k).to_set();
        assert forall|x: usize| few.contains(x) implies room.contains(x) by {
            let i = choose|i: int| 0 <= i < front.len() && front[i] == x;
            assert(p[i] == x && keys[p[i] as int] <= keys[p[k] as int]);
            lemma_order_covers(b, q, 0, b.len() as int, x as int);
            let j = choose|j: int| 0 <= j < q.len() && #[trigger] q[j] == x as int;
            if j >= k {
                assert(keys[q[k] as int] <= keys[q[j] as int]);
            }
            assert(q.take(k)[j] == x);
        }
        vstd::set_lib::lemma_len_subset(few, room);
    }
}

/// Two listings of the same positions along which `keys` does not fall have equal keys at
/// every place.
pub proof fn lemma_same_ranks(
    keys: Seq<int>,
    a: Seq<int>,
    p: Seq<usize>,
    b: Seq<int>,
    q: Seq<usize>,
    k: int,
)
    requires
        is_order(a, p),
        is_order(b, q),
        a.len() == b.len(),
        rises(keys, p),
        rises(keys, q),
        0 <= k < p.len(),
    ensures
        keys[p[k] as int] == keys[q[k] as int],
{
    lemma_not_below(keys, a, p, b, q, k);
    lemma_not_below(keys, b, q, a, p, k);
}

/// The places of a sequence at which `pred` holds.
spec fn places_where<T>(s: Seq<T>, pred: spec_fn(T) -> bool) -> Set<int> {
    vstd::set_lib::set_int_range(0, s.len() as int).filter(|i: int| pred(s[i]))
}

/// What a filter keeps is as much as there are places at which it holds.
proof fn lemma_filter_counts_places<T>(s: Seq<T>, pred: spec_fn(T) -> bool)
    ensures
        places_where(s, pred).finite(),
        s.filter(pred).len() == places_where(s, pred).len(),
    decreases s.len(),
{
    reveal(Seq::filter);
    vstd::set_lib::lemma_int_range(0, s.len() as int);
    let all = places_where(s, pred);
    if s.len() == 0 {
        assert(all =~= Set::empty());
    } else {
        let rest = s.drop_last();
        lemma_filter_counts_places(rest, pred);
        let n = s.len() - 1;
        let few = places_where(rest, pred);
        if pred(s.last()) {
            assert(all =~= few.insert(n));
            assert(!few.contains(n));
        } else {
            assert(all =~= few);
        }
    }
}

/// Along an order, everything occurs as often as in the sequence itself.
pub proof fn lemma_orders_keep_counts<T>(
    keys: Seq<int>,
    p: Seq<usize>,
    v: Seq<T>,
    s: Seq<T>,
    pred: spec_fn(T) -> bool,
)
    requires
        is_order(keys, p),
        keys.len() == v.len(),
        s.len() == p.len(),
        forall|i: int| 0 <= i < s.len() ==> #[trigger] s[i] == v[p[i] as int],
    ensures
        s.filter(pred).len() == v.filter(pred).len(),
{
    lemma_filter_counts_places(s, pred);
    lemma_filter_counts_places(v, pred);
    let a = places_where(s, pred);
    let b = places_where(v, pred);
    let f = |i: int| p[i] as int;
    assert(a.map(f) =~= b) by {
        assert forall|x: int| b.contains(x) implies a.map(f).contains(x) by {
            lemma_order_covers(keys, p, 0, keys.len() as int, x);
            let i = choose|i: int| 0 <= i < p.len() && #[trigger] p[i] == x;
            assert(s[i] == v[x]);
            assert(a.contains(i) && f(i) == x);
        }
        assert forall|x: int| a.map(f).contains(x) implies b.contains(x) by {
            let i = choose|i: int| a.contains(i) && f(i) == x;
            assert(s[i] == v[p[i] as int]);
        }
    }
    assert(vstd::relations::injective_on(f, a)) by {
        assert forall|i: int, j: int| a.contains(i) && a.contains(j) && f(i) == f(j) implies i
            == j by {
            if i < j {
                assert(precedes(keys, p[i] as int, p[j] as int));
            } else if j < i {
                assert(precedes(keys, p[j] as int, p[i] as int));
            }
        }
    }
    vstd::set_lib::lemma_map_size(a, b, f);
}

/// In ascending order, no number is above one behind it, and of every kind there are as many
/// as before.
pub proof fn law_ascending_sorts(v: Seq<u64>, pred: spec_fn(u64) -> bool)
    requires
        v.len() <= usize::MAX,
    ensures
        ascending(v).len() == v.len(),
        forall|i: int, j: int|
            0 <= i <= j < v.len() ==> #[trigger] ascending(v)[i] <= #[trigger] ascending(v)[j],
        ascending(v).filter(pred).len() == v.filter(pred).len(),
{
    let keys = v.map_values(|x: u64| x as int);
    let p = order_of(keys);
    lemma_order_exists(keys);
    assert forall|i: int, j: int| 0 <= i <= j < v.len() implies #[trigger] ascending(v)[i]
        <= #[trigger] ascending(v)[j] by {
        if i < j {
            assert(precedes(keys, p[i] as int, p[j] as int));
        }
    }
    lemma_orders_keep_counts(keys, p, v, ascending(v), pred);
}

/// The place of a quantile is the whole number nearest to that share of the way from the first
/// place to the last, and the upper one of two that are equally near.
pub proof fn law_ranks_are_nearest(n: nat, percent: nat, r: int)
    requires
        n > 0,
    ensures
        r == nearest_rank(n, percent) <==> 200 * r - 100 <= 2 * (n - 1) * percent < 200 * r + 100,
{
    let x = 2 * (n - 1) * percent;
    assert(x >= 0) by (nonlinear_arith)
        requires
            x == 2 * (n - 1) * percent,
            n > 0,
    ;
}

/// `percentile` sorts, and gives the number at the nearest place of the quantile; zero where
/// there is none.
pub proof fn law_percentile_gives_the_nearest_rank(
    v: &mut Vec<u64>,
    percent: u64,
    r: u64,
    i: int,
    pred: spec_fn(u64) -> bool,
)
    requires
        call_ensures(percentile, (v, percent), r),
        percent <= 100,
        old(v)@.len() <= usize::MAX,
    ensures
        old(v)@.len() == 0 ==> r == 0,
        final(v)@.len() == old(v)@.len(),
        forall|j: int, k: int|
            0 <= j <= k < final(v)@.len() ==> #[trigger] final(v)@[j] <= #[trigger] final(v)@[k],
        final(v)@.filter(pred).len() == old(v)@.filter(pred).len(),
        0 <= i < final(v)@.len() && 200 * i - 100 <= 2 * (final(v)@.len() - 1) * percent < 200 * i
            + 100 ==> r == final(v)@[i],
{
    law_ascending_sorts(old(v)@, pred);
    if old(v)@.len() > 0 {
        law_ranks_are_nearest(old(v)@.len(), percent as nat, i);
    }
}

/// A stable order lists every position once, by ascending key, and of equal keys the earlier
/// position first.
pub proof fn law_stable_orders_sort(keys: Vec<i128>, r: Vec<usize>, i: int, j: int, x: int)
    requires
        call_ensures(stable_order, (&keys,), r),
        0 <= i < j < r@.len(),
        0 <= x < keys@.len(),
    ensures
        r@.len() == keys@.len(),
        r@[i] < keys@.len() && r@[j] < keys@.len(),
        keys@[r@[i] as int] <= keys@[r@[j] as int],
        keys@[r@[i] as int] == keys@[r@[j] as int] ==> r@[i] < r@[j],
        exists|k: int| 0 <= k < r@.len() && #[trigger] r@[k] == x,
{
    let ks = ints(keys@);
    assert(precedes(ks, r@[i] as int, r@[j] as int));
    lemma_order_covers(ks, r@, 0, ks.len() as int, x);
}

/// The place of a quantile is one of the places, and the nearest.
pub proof fn law_ranks_are_computed(n: usize, percent: u64, r: usize)
    requires
        call_ensures(rank, (n, percent), r),
        n > 0,
    ensures
        r < n,
        200 * r - 100 <= 2 * (n - 1) * percent < 200 * r + 100,
{
    law_ranks_are_nearest(n as nat, percent as nat, r as int);
}

} // verus!
