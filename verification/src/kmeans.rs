//! The choices of a k-means search: Lloyd's iteration from k-means++ seeds, best of several
//! runs by inertia.
//!
//! Rows, centroids and distances are doubles and stay with the caller. The search tells the
//! caller what to compute next, and decides on the answer: which rows seed a run, which
//! centroid is nearest to a row, when a run ends and which run is kept. It draws from a
//! seeded generator, so that the same rows give the same clusters.
use vstd::prelude::*;

use crate::classes::{law_places_hold, places_of};
use crate::double::{is_number, law_doubles_compare_as_numbers, units, Double};
use crate::feeds::{keys_of, order_keys};
use crate::order::{is_order, lemma_order_covers, order_of, precedes, stable_order};

verus! {

/// How many rounds a run has at most.
pub const ROUNDS: usize = 100;

/// Where the generator starts.
pub const SEED: u64 = 0x9E37_79B9_7F4A_7C15;

/// What the generator multiplies by.
pub const FACTOR: u64 = 6364136223846793005;

/// What the generator adds.
pub const OFFSET: u64 = 1442695040888963407;

// ---- choices ----

/// The next state of the generator: a linear congruence modulo two to the sixty-fourth.
pub open spec fn advanced(seed: u64) -> u64 {
    ((seed * FACTOR + OFFSET) % 0x1_0000_0000_0000_0000) as u64
}

/// Advances the generator.
pub fn advance(seed: u64) -> (r: u64)
    ensures
        r == advanced(seed),
{
    let product: u64 = seed.wrapping_mul(FACTOR);
    let r: u64 = product.wrapping_add(OFFSET);
    proof {
        let m = 0x1_0000_0000_0000_0000int;
        vstd::arithmetic::div_mod::lemma_add_mod_noop(seed * FACTOR, OFFSET as int, m);
        vstd::arithmetic::div_mod::lemma_small_mod(OFFSET as nat, m as nat);
        vstd::arithmetic::div_mod::lemma_mod_bound(seed * FACTOR, m);
    }
    r
}

/// `a <= b` on doubles.
pub open spec fn at_most(a: Double, b: Double) -> bool {
    a.below(b) || a.equals(b)
}

/// The first row, from `i` on, whose weight covers what is left of the draw when it is its
/// turn; the last row where none does.
pub open spec fn covering(left: Seq<Double>, weights: Seq<Double>, i: int) -> int
    decreases weights.len() - i,
{
    if i >= weights.len() {
        weights.len() - 1
    } else if at_most(left[i], weights[i]) {
        i
    } else {
        covering(left, weights, i + 1)
    }
}

/// Picks a row by weight: the first whose weight covers what is left of the draw after the
/// weights before it, and the last where none does.
pub fn pick(left: &Vec<Double>, weights: &Vec<Double>) -> (r: usize)
    requires
        left@.len() == weights@.len(),
        weights@.len() > 0,
    ensures
        r == covering(left@, weights@, 0),
        r < weights@.len(),
{
    let mut i: usize = 0;
    while i < weights.len()
        invariant
            left@.len() == weights@.len(),
            weights@.len() > 0,
            i <= weights@.len(),
            covering(left@, weights@, 0) == covering(left@, weights@, i as int),
        decreases weights@.len() - i,
    {
        if left[i].lt(weights[i]) || left[i].eq(weights[i]) {
            return i;
        }
        i += 1;
    }
    weights.len() - 1
}

/// The place of the first smallest distance.
pub open spec fn nearest_of(d: Seq<Double>) -> int
    decreases d.len(),
{
    if d.len() <= 1 {
        0
    } else {
        let before = nearest_of(d.drop_last());
        if d.last().below(d[before]) {
            d.len() - 1
        } else {
            before
        }
    }
}

/// Whether distances can be compared: there is one, or none is a NaN.
pub open spec fn comparable(d: Seq<Double>) -> bool {
    d.len() == 1 || forall|i: int| 0 <= i < d.len() ==> !(#[trigger] d[i]).nan()
}

/// The centroid nearest to a row, the first where several are.
pub fn nearest(d: &Vec<Double>) -> (r: usize)
    requires
        d@.len() > 0,
        comparable(d@),
    ensures
        r == nearest_of(d@),
        r < d@.len(),
{
    let mut best: usize = 0;
    assert(d@.take(1).len() == 1);
    for i in 1..d.len()
        invariant
            0 < i <= d@.len(),
            best < i,
            best == nearest_of(d@.take(i as int)),
    {
        assert(d@.take(i + 1).drop_last() =~= d@.take(i as int));
        if d[i].lt(d[best]) {
            best = i;
        }
    }
    assert(d@.take(d@.len() as int) =~= d@);
    best
}

/// Each row's nearest centroid.
pub open spec fn assigned(d: Seq<Vec<Double>>) -> Seq<usize> {
    Seq::new(d.len(), |i: int| nearest_of(d[i]@) as usize)
}

/// Assigns each row to its nearest centroid, and says whether that changes anything.
pub fn reassign(assign: &mut Vec<usize>, d: &Vec<Vec<Double>>) -> (changed: bool)
    requires
        old(assign)@.len() == d@.len(),
        forall|i: int|
            0 <= i < d@.len() ==> (#[trigger] d@[i])@.len() > 0 && comparable(d@[i]@),
    ensures
        final(assign)@ == assigned(d@),
        changed == (final(assign)@ != old(assign)@),
{
    let mut changed = false;
    for i in 0..d.len()
        invariant
            assign@.len() == d@.len(),
            old(assign)@.len() == d@.len(),
            forall|i: int|
                0 <= i < d@.len() ==> (#[trigger] d@[i])@.len() > 0 && comparable(d@[i]@),
            forall|j: int| 0 <= j < i ==> #[trigger] assign@[j] == nearest_of(d@[j]@) as usize,
            forall|j: int| i <= j < d@.len() ==> #[trigger] assign@[j] == old(assign)@[j],
            changed == exists|j: int|
                0 <= j < i && #[trigger] assign@[j] != old(assign)@[j],
    {
        let a: usize = nearest(&d[i]);
        let ghost before = assign@;
        if assign[i] != a {
            assign.set(i, a);
            changed = true;
            assert(assign@[i as int] != old(assign)@[i as int]);
        }
        assert(forall|j: int| 0 <= j < i ==> #[trigger] assign@[j] == before[j]);
    }
    assert(assign@ =~= assigned(d@));
    assert(!changed ==> assign@ =~= old(assign)@);
    changed
}

/// The rows of each cluster.
pub fn clusters(assign: &Vec<usize>, k: usize) -> (r: Vec<Vec<usize>>)
    ensures
        r@.len() == k,
        forall|c: int| 0 <= c < k ==> (#[trigger] r@[c])@ == places_of(assign@, c as usize),
{
    let mut r: Vec<Vec<usize>> = Vec::new();
    for c in 0..k
        invariant
            r@.len() == c,
            forall|b: int| 0 <= b < c ==> (#[trigger] r@[b])@ == places_of(assign@, b as usize),
    {
        let mut rows: Vec<usize> = Vec::new();
        assert(assign@.take(0) =~= Seq::empty());
        for i in 0..assign.len()
            invariant
                rows@ == places_of(assign@.take(i as int), c),
        {
            assert(assign@.take(i + 1).drop_last() =~= assign@.take(i as int));
            if assign[i] == c {
                rows.push(i);
            }
        }
        assert(assign@.take(assign@.len() as int) =~= assign@);
        r.push(rows);
    }
    r
}

// ---- the search ----

/// What the search waits for.
#[derive(Clone, Copy, Debug, PartialEq, Eq, Structural)]
pub enum Phase {
    /// The row that a draw gives.
    First,
    /// The weights of the rows.
    Weigh,
    /// A centroid to be added.
    Add,
    /// The distances of the rows to the centroids.
    Measure,
    /// The centroids to be moved.
    Recentre,
    /// The inertia of the run.
    Score,
    /// The centroids of the run to be kept.
    Keep,
    /// Nothing.
    Done,
}

/// What the caller is to do. A draw is a share of one, in units of two to the minus
/// fifty-third.
#[derive(Debug)]
pub enum Task {
    /// Forget the centroids, and say which row `draw * n` falls on.
    First { draw: u64 },
    /// Weigh each row by its squared distance to the nearest centroid, and lay `draw` times
    /// the total over the weights: say for each row what is left of it after the rows before.
    Weigh { draw: u64 },
    /// Add the row to the centroids.
    Add { row: usize },
    /// Say the squared distance of each row to each centroid.
    Measure,
    /// Move each centroid to the mean of its rows; one without rows stays.
    Recentre { rows: Vec<Vec<usize>> },
    /// Say the sum of the squared distances of the rows to their centroids.
    Score,
    /// Keep the centroids, in place of those kept before.
    Keep,
    /// Nothing is left to do.
    Done,
}

/// What the caller has done.
#[derive(Debug)]
pub enum Answer {
    Row(usize),
    Weights { left: Vec<Double>, weights: Vec<Double> },
    Distances(Vec<Vec<Double>>),
    Inertia(Double),
    Ready,
}

/// The best run so far.
#[derive(Debug)]
pub struct Best {
    pub inertia: Double,
    pub assign: Vec<usize>,
}

/// A search for `k` clusters of `n` rows.
#[derive(Debug)]
pub struct Search {
    pub n: usize,
    pub k: usize,
    /// How many runs there are to be.
    pub restarts: usize,
    pub phase: Phase,
    /// The state of the generator.
    pub seed: u64,
    /// How many runs are over.
    pub runs: usize,
    /// How many centroids the run has.
    pub centroids: usize,
    /// The row that was picked last.
    pub row: usize,
    /// How many rounds the run has had.
    pub rounds: usize,
    /// Whether the last round changed the cluster of a row.
    pub changed: bool,
    /// The cluster of each row.
    pub assign: Vec<usize>,
    pub best: Option<Best>,
}

/// A search, as a value.
pub struct State {
    pub n: usize,
    pub k: usize,
    pub restarts: usize,
    pub phase: Phase,
    pub seed: u64,
    pub runs: usize,
    pub centroids: usize,
    pub row: usize,
    pub rounds: usize,
    pub changed: bool,
    pub assign: Seq<usize>,
    pub best: Option<(Double, Seq<usize>)>,
}

impl View for Search {
    type V = State;

    open spec fn view(&self) -> State {
        State {
            n: self.n,
            k: self.k,
            restarts: self.restarts,
            phase: self.phase,
            seed: self.seed,
            runs: self.runs,
            centroids: self.centroids,
            row: self.row,
            rounds: self.rounds,
            changed: self.changed,
            assign: self.assign@,
            best: match self.best {
                Some(b) => Some((b.inertia, b.assign@)),
                None => None,
            },
        }
    }
}

impl State {
    /// A search for `k` clusters of `n` rows in `restarts` runs, before its first answer.
    pub open spec fn start(n: usize, k: usize, restarts: usize) -> State {
        State {
            n,
            k,
            restarts,
            phase: Phase::First,
            seed: advanced(SEED),
            runs: 0,
            centroids: 0,
            row: 0,
            rounds: 0,
            changed: false,
            assign: Seq::empty(),
            best: None,
        }
    }

    /// The state after all the answers, one after another.
    pub open spec fn after_all(self, answers: Seq<Answer>) -> State
        decreases answers.len(),
    {
        if answers.len() == 0 {
            self
        } else {
            self.after_all(answers.drop_last()).after(answers.last())
        }
    }

    /// Whether every answer is one to what the search waits for then.
    pub open spec fn expects_all(self, answers: Seq<Answer>) -> bool
        decreases answers.len(),
    {
        answers.len() > 0 ==> self.expects_all(answers.drop_last()) && self.after_all(
            answers.drop_last(),
        ).expects(answers.last())
    }

    /// Before the first row of a run.
    pub open spec fn seeding(self) -> State {
        State { phase: Phase::First, seed: advanced(self.seed), centroids: 0, ..self }
    }

    /// Once a run is over: on to the next, or done.
    pub open spec fn run_over(self) -> State {
        let over = State { runs: (self.runs + 1) as usize, ..self };
        if over.runs < over.restarts {
            over.seeding()
        } else {
            State { phase: Phase::Done, ..over }
        }
    }

    /// Once a centroid is added: on to the next, or to the first round with all rows in the
    /// first cluster.
    pub open spec fn added(self) -> State {
        let more = State { centroids: (self.centroids + 1) as usize, ..self };
        if more.centroids < more.k {
            State { phase: Phase::Weigh, seed: advanced(more.seed), ..more }
        } else {
            State {
                phase: Phase::Measure,
                rounds: 0,
                assign: Seq::new(more.n as nat, |i: int| 0usize),
                ..more
            }
        }
    }

    /// Whether a run of inertia `x` is better than all before: none was kept, or `x` is less.
    pub open spec fn improves(self, x: Double) -> bool {
        match self.best {
            Some((inertia, _)) => x.below(inertia),
            None => true,
        }
    }

    /// Whether an answer is one to what the search waits for.
    pub open spec fn expects(self, a: Answer) -> bool {
        match (self.phase, a) {
            (Phase::First, Answer::Row(row)) => row < self.n,
            (Phase::Weigh, Answer::Weights { left, weights }) => left@.len() == self.n
                && weights@.len() == self.n,
            (Phase::Add, Answer::Ready) => true,
            (Phase::Measure, Answer::Distances(d)) => d@.len() == self.n && forall|i: int|
                0 <= i < self.n ==> (#[trigger] d@[i])@.len() == self.k && comparable(d@[i]@),
            (Phase::Recentre, Answer::Ready) => true,
            (Phase::Score, Answer::Inertia(_)) => true,
            (Phase::Keep, Answer::Ready) => true,
            _ => false,
        }
    }

    /// The state after an answer.
    pub open spec fn after(self, a: Answer) -> State {
        match (self.phase, a) {
            (Phase::First, Answer::Row(row)) => State { phase: Phase::Add, row, ..self },
            (Phase::Weigh, Answer::Weights { left, weights }) => State {
                phase: Phase::Add,
                row: covering(left@, weights@, 0) as usize,
                ..self
            },
            (Phase::Add, _) => self.added(),
            (Phase::Measure, Answer::Distances(d)) => State {
                phase: Phase::Recentre,
                rounds: (self.rounds + 1) as usize,
                assign: assigned(d@),
                changed: assigned(d@) != self.assign,
                ..self
            },
            (Phase::Recentre, _) => State {
                phase: if self.changed && self.rounds < ROUNDS {
                    Phase::Measure
                } else {
                    Phase::Score
                },
                ..self
            },
            (Phase::Score, Answer::Inertia(x)) => if self.improves(x) {
                State { phase: Phase::Keep, best: Some((x, self.assign)), ..self }
            } else {
                self.run_over()
            },
            (Phase::Keep, _) => self.run_over(),
            _ => self,
        }
    }

    /// Whether `t` is what is to be done in this state.
    pub open spec fn wants(self, t: Task) -> bool {
        match self.phase {
            Phase::First => t == (Task::First { draw: self.seed >> 11 }),
            Phase::Weigh => t == (Task::Weigh { draw: self.seed >> 11 }),
            Phase::Add => t == (Task::Add { row: self.row }),
            Phase::Measure => t == Task::Measure,
            Phase::Recentre => match t {
                Task::Recentre { rows } => rows@.len() == self.k && forall|c: int|
                    0 <= c < self.k ==> (#[trigger] rows@[c])@ == places_of(
                        self.assign,
                        c as usize,
                    ),
                _ => false,
            },
            Phase::Score => t == Task::Score,
            Phase::Keep => t == Task::Keep,
            Phase::Done => t == Task::Done,
        }
    }

    /// Whether every row has one of the clusters.
    pub open spec fn labels(self, assign: Seq<usize>) -> bool {
        assign.len() == self.n && forall|i: int| 0 <= i < self.n ==> #[trigger] assign[i] < self.k
    }

    /// What holds in every state: the counts are within their bounds, every row of a
    /// measured run has a cluster, and so has every row of the best run.
    pub open spec fn consistent(self) -> bool {
        &&& self.n > 0
        &&& self.k > 0
        &&& self.restarts > 0
        &&& self.runs < self.restarts <==> self.phase != Phase::Done
        &&& self.runs <= self.restarts
        &&& self.phase == Phase::First ==> self.centroids == 0
        &&& self.phase == Phase::Weigh || self.phase == Phase::Add ==> self.centroids < self.k
        &&& self.phase == Phase::Add ==> self.row < self.n
        &&& self.phase == Phase::Measure ==> self.rounds < ROUNDS && self.labels(self.assign)
        &&& self.phase == Phase::Recentre || self.phase == Phase::Score || self.phase
            == Phase::Keep ==> self.rounds <= ROUNDS && self.labels(self.assign)
        &&& self.phase == Phase::Keep || self.runs > 0 ==> self.best is Some
        &&& match self.best {
            Some((_, assign)) => self.labels(assign),
            None => true,
        }
    }
}

impl Search {
    /// A search for `k` clusters of `n` rows in several runs.
    pub fn new(n: usize, k: usize, restarts: usize) -> (r: Search)
        requires
            n > 0,
            k > 0,
            restarts > 0,
        ensures
            r@.consistent(),
            r@ == State::start(n, k, restarts),
    {
        Search {
            n,
            k,
            restarts,
            phase: Phase::First,
            seed: advance(SEED),
            runs: 0,
            centroids: 0,
            row: 0,
            rounds: 0,
            changed: false,
            assign: Vec::new(),
            best: None,
        }
    }

    /// What is to be done.
    pub fn task(&self) -> (r: Task)
        ensures
            self@.wants(r),
    {
        match self.phase {
            Phase::First => Task::First { draw: self.seed >> 11 },
            Phase::Weigh => Task::Weigh { draw: self.seed >> 11 },
            Phase::Add => Task::Add { row: self.row },
            Phase::Measure => Task::Measure,
            Phase::Recentre => Task::Recentre { rows: clusters(&self.assign, self.k) },
            Phase::Score => Task::Score,
            Phase::Keep => Task::Keep,
            Phase::Done => Task::Done,
        }
    }

    fn run_over(&mut self)
        requires
            old(self).runs < old(self).restarts,
        ensures
            final(self)@ == old(self)@.run_over(),
    {
        self.runs += 1;
        if self.runs < self.restarts {
            self.phase = Phase::First;
            self.seed = advance(self.seed);
            self.centroids = 0;
        } else {
            self.phase = Phase::Done;
        }
    }

    fn added(&mut self)
        requires
            old(self).centroids < old(self).k,
        ensures
            final(self)@ == old(self)@.added(),
    {
        self.centroids += 1;
        if self.centroids < self.k {
            self.phase = Phase::Weigh;
            self.seed = advance(self.seed);
        } else {
            self.phase = Phase::Measure;
            self.rounds = 0;
            let n: usize = self.n;
            let mut zeros: Vec<usize> = Vec::new();
            for i in 0..n
                invariant
                    zeros@ == Seq::new(i as nat, |j: int| 0usize),
            {
                zeros.push(0);
                assert(zeros@ =~= Seq::new((i + 1) as nat, |j: int| 0usize));
            }
            self.assign = zeros;
        }
    }

    /// Takes in an answer, and says what is to be done next.
    pub fn step(&mut self, a: Answer) -> (r: Task)
        requires
            old(self)@.consistent(),
            old(self)@.expects(a),
        ensures
            final(self)@ == old(self)@.after(a),
            final(self)@.consistent(),
            final(self)@.wants(r),
    {
        match (self.phase, a) {
            (Phase::First, Answer::Row(row)) => {
                self.row = row;
                self.phase = Phase::Add;
            },
            (Phase::Weigh, Answer::Weights { left, weights }) => {
                self.row = pick(&left, &weights);
                self.phase = Phase::Add;
            },
            (Phase::Add, Answer::Ready) => {
                self.added();
            },
            (Phase::Measure, Answer::Distances(d)) => {
                self.changed = reassign(&mut self.assign, &d);
                self.rounds += 1;
                self.phase = Phase::Recentre;
                proof {
                    assert forall|i: int| 0 <= i < self.n implies #[trigger] self.assign@[i]
                        < self.k by {
                        lemma_nearest_in_range(d@[i]@);
                    }
                }
            },
            (Phase::Recentre, Answer::Ready) => {
                self.phase = if self.changed && self.rounds < ROUNDS {
                    Phase::Measure
                } else {
                    Phase::Score
                };
            },
            (Phase::Score, Answer::Inertia(x)) => {
                let better = match &self.best {
                    Some(b) => x.lt(b.inertia),
                    None => true,
                };
                if better {
                    self.best = Some(Best { inertia: x, assign: copied(&self.assign) });
                    self.phase = Phase::Keep;
                } else {
                    self.run_over();
                }
            },
            (Phase::Keep, Answer::Ready) => {
                self.run_over();
            },
            _ => {},
        }
        self.task()
    }
}

fn copied(v: &Vec<usize>) -> (r: Vec<usize>)
    ensures
        r@ == v@,
{
    let mut r: Vec<usize> = Vec::new();
    for i in 0..v.len()
        invariant
            r@ == v@.take(i as int),
    {
        r.push(v[i]);
        assert(v@.take(i + 1) =~= v@.take(i as int).push(v@[i as int]));
    }
    assert(v@.take(v@.len() as int) =~= v@);
    r
}

proof fn lemma_nearest_in_range(d: Seq<Double>)
    requires
        d.len() > 0,
    ensures
        0 <= nearest_of(d) < d.len(),
    decreases d.len(),
{
    if d.len() > 1 {
        lemma_nearest_in_range(d.drop_last());
    }
}

// ---- the clusters ----

/// Clusters in the order of their centroids' markouts.
#[derive(Debug)]
pub struct Clusters {
    /// The cluster at each place of the order.
    pub order: Vec<usize>,
    /// Each row's cluster, by its place in the order.
    pub assign: Vec<usize>,
}

impl State {
    /// Whether `r` are the clusters of the best run, ordered by `markouts`: each row's cluster
    /// is the place in the order of the one that the run gave it.
    pub open spec fn gives(self, markouts: Seq<Double>, r: Clusters) -> bool {
        &&& r.order@ == order_of(keys_of(markouts))
        &&& is_order(keys_of(markouts), r.order@)
        &&& r.assign@.len() == self.n
        &&& forall|i: int|
            0 <= i < self.n ==> (#[trigger] r.assign@[i]) < self.k && r.order@[r.assign@[i] as int]
                == (self.best->0).1[i]
    }
}

/// Where each of `k` clusters stands in an order of them.
fn ranks(order: &Vec<usize>, k: usize, keys: Ghost<Seq<int>>) -> (r: Vec<usize>)
    requires
        is_order(keys@, order@),
        keys@.len() == k,
    ensures
        r@.len() == k,
        forall|c: int| 0 <= c < k ==> (#[trigger] r@[c]) < k && order@[r@[c] as int] == c,
{
    let mut r: Vec<usize> = Vec::new();
    for i in 0..k
        invariant
            r@.len() == i,
    {
        r.push(0);
    }
    for i in 0..order.len()
        invariant
            is_order(keys@, order@),
            keys@.len() == k,
            r@.len() == k,
            forall|j: int| 0 <= j < i ==> r@[#[trigger] order@[j] as int] == j,
    {
        let ghost before = r@;
        r.set(order[i], i);
        assert forall|j: int| 0 <= j < i + 1 implies r@[#[trigger] order@[j] as int] == j by {
            if j < i {
                assert(precedes(keys@, order@[j] as int, order@[i as int] as int));
            }
        }
    }
    assert forall|c: int| 0 <= c < k implies (#[trigger] r@[c]) < k && order@[r@[c] as int]
        == c by {
        lemma_order_covers(keys@, order@, 0, k as int, c);
        let i = choose|i: int| 0 <= i < order@.len() && #[trigger] order@[i] == c;
        assert(r@[order@[i] as int] == i);
    }
    r
}

impl Search {
    /// The clusters of the best run in ascending order of their centroids' markouts at one
    /// second, so that the first is the least informed. `markouts` holds them by cluster.
    pub fn finish(&self, markouts: &Vec<Double>) -> (r: Clusters)
        requires
            self@.consistent(),
            self@.phase == Phase::Done,
            markouts@.len() == self@.k,
            comparable(markouts@),
        ensures
            self@.gives(markouts@, r),
    {
        let keys = order_keys(markouts);
        let order = stable_order(&keys);
        let rank = ranks(&order, self.k, Ghost(keys_of(markouts@)));
        let mut assign: Vec<usize> = Vec::new();
        if let Some(b) = &self.best {
            for i in 0..b.assign.len()
                invariant
                    self@.consistent(),
                    self@.best == Some((b.inertia, b.assign@)),
                    rank@.len() == self.k,
                    forall|c: int|
                        0 <= c < self.k ==> (#[trigger] rank@[c]) < self.k && order@[rank@[c] as int]
                            == c,
                    assign@.len() == i,
                    forall|j: int|
                        0 <= j < i ==> (#[trigger] assign@[j]) < self.k && order@[assign@[j] as int]
                            == b.assign@[j],
            {
                let c: usize = b.assign[i];
                assert(self@.labels(b.assign@));
                assign.push(rank[c]);
            }
        }
        Clusters { order, assign }
    }
}

// ---- laws ----

/// A draw is less than one.
pub proof fn law_draws_are_below_one(seed: u64)
    ensures
        seed >> 11 < 0x20_0000_0000_0000u64,
{
    assert(seed >> 11 < 0x20_0000_0000_0000u64) by (bit_vector);
}

/// No centroid is nearer to a row than its own, and every one before that is farther.
pub proof fn law_nearest_is_least(d: Seq<Double>, j: int)
    requires
        comparable(d),
        0 <= j < d.len(),
    ensures
        0 <= nearest_of(d) < d.len(),
        !d[j].below(d[nearest_of(d)]),
        j < nearest_of(d) ==> d[nearest_of(d)].below(d[j]),
    decreases d.len(),
{
    lemma_nearest_in_range(d);
    if d.len() > 1 {
        let rest = d.drop_last();
        assert(comparable(rest)) by {
            assert forall|i: int| 0 <= i < rest.len() implies !(#[trigger] rest[i]).nan() by {
                assert(rest[i] == d[i]);
            }
        }
        lemma_nearest_in_range(rest);
        if j < d.len() - 1 {
            law_nearest_is_least(rest, j);
            assert(rest[j] == d[j]);
        }
    }
}

/// How many answers a run takes at most.
pub open spec fn run_length(k: nat) -> nat {
    2 * k + 2 * ROUNDS as nat + 2
}

/// How many answers the search still takes at most.
pub open spec fn left(s: State) -> int {
    let later = (s.restarts - s.runs - 1) * run_length(s.k as nat);
    match s.phase {
        Phase::First => later + run_length(s.k as nat),
        Phase::Weigh => later + 2 * (s.k - s.centroids) + 2 * ROUNDS + 2,
        Phase::Add => later + 2 * (s.k - s.centroids) - 1 + 2 * ROUNDS + 2,
        Phase::Measure => later + 2 * (ROUNDS - s.rounds) + 2,
        Phase::Recentre => later + 2 * (ROUNDS - s.rounds) + 3,
        Phase::Score => later + 2,
        Phase::Keep => later + 1,
        Phase::Done => 0,
    }
}

/// Every answer brings the search nearer to its end, so it is done after at most
/// `restarts * run_length(k)` of them.
pub proof fn law_the_search_ends(s: State, a: Answer)
    requires
        s.consistent(),
        s.expects(a),
    ensures
        0 <= left(s.after(a)) < left(s) <= s.restarts * run_length(s.k as nat),
        s.after(a).restarts == s.restarts,
        s.after(a).k == s.k,
{
    let p = run_length(s.k as nat) as int;
    let runs = s.restarts - s.runs;
    assert((runs - 1) * p + p == runs * p && (runs - 2) * p + p == (runs - 1) * p)
        by (nonlinear_arith);
    assert(0 <= (runs - 1) * p && runs * p <= s.restarts * p) by (nonlinear_arith)
        requires
            1 <= runs <= s.restarts,
            p >= 0,
    ;
    if runs >= 2 {
        assert(0 <= (runs - 2) * p) by (nonlinear_arith)
            requires
                runs >= 2,
                p >= 0,
        ;
    }
}

/// The best run has the least inertia: no run that was scored has a smaller one than the run
/// that is kept.
pub proof fn law_the_best_run_is_kept(s: State, a: Answer, scored: Set<Double>)
    requires
        s.consistent(),
        s.expects(a),
        s.best is None ==> scored.is_empty(),
        forall|x: Double| #[trigger] scored.contains(x) ==> !x.below((s.best->0).0),
    ensures
        forall|x: Double| #[trigger]
            scored.contains(x) ==> s.after(a).best is Some && !x.below((s.after(a).best->0).0),
        a matches Answer::Inertia(x) ==> s.after(a).best is Some && !x.below(
            (s.after(a).best->0).0,
        ),
{
    if s.best is None {
        assert forall|x: Double| #[trigger] scored.contains(x) implies false by {
            assert(scored =~= Set::empty());
        }
    }
}

/// The first cluster is the least informed: the centroids' markouts ascend with the order,
/// and every cluster stands in it once.
pub proof fn law_clusters_ascend(markouts: Seq<Double>, order: Seq<usize>, i: int, j: int)
    requires
        comparable(markouts),
        is_order(keys_of(markouts), order),
        0 <= i < j < order.len(),
    ensures
        !markouts[order[j] as int].below(markouts[order[i] as int]),
        order[i] != order[j],
{
    assert(precedes(keys_of(markouts), order[i] as int, order[j] as int));
}

/// Whether two answers say the same.
pub open spec fn alike(a: Answer, b: Answer) -> bool {
    match (a, b) {
        (Answer::Row(x), Answer::Row(y)) => x == y,
        (
            Answer::Weights { left: l, weights: w },
            Answer::Weights { left: m, weights: v },
        ) => l@ == m@ && w@ == v@,
        (Answer::Distances(d), Answer::Distances(e)) => d@.len() == e@.len() && forall|i: int|
            0 <= i < d@.len() ==> (#[trigger] d@[i])@ == e@[i]@,
        (Answer::Inertia(x), Answer::Inertia(y)) => x == y,
        (Answer::Ready, Answer::Ready) => true,
        _ => false,
    }
}

/// The same answers lead to the same state, and the search asks for the same in it.
pub proof fn law_equal_answers_give_equal_states(s: State, a: Seq<Answer>, b: Seq<Answer>)
    requires
        a.len() == b.len(),
        forall|i: int| 0 <= i < a.len() ==> alike(#[trigger] a[i], b[i]),
    ensures
        s.after_all(a) == s.after_all(b),
        forall|t: Task| s.after_all(a).wants(t) <==> #[trigger] s.after_all(b).wants(t),
    decreases a.len(),
{
    if a.len() > 0 {
        assert forall|i: int| 0 <= i < a.drop_last().len() implies alike(
            #[trigger] a.drop_last()[i],
            b.drop_last()[i],
        ) by {
            assert(alike(a[i], b[i]));
        }
        law_equal_answers_give_equal_states(s, a.drop_last(), b.drop_last());
        assert(alike(a[a.len() - 1], b[b.len() - 1]));
        match (a.last(), b.last()) {
            (Answer::Distances(d), Answer::Distances(e)) => {
                assert(assigned(d@) =~= assigned(e@));
            },
            _ => {},
        }
    }
}

/// The search is deterministic: the same answers, and the same markouts in the end, give the
/// same clusters in the same order.
pub proof fn law_equal_answers_give_equal_clusters(
    s: State,
    a: Seq<Answer>,
    b: Seq<Answer>,
    markouts: Seq<Double>,
    r: Clusters,
    q: Clusters,
)
    requires
        a.len() == b.len(),
        forall|i: int| 0 <= i < a.len() ==> alike(#[trigger] a[i], b[i]),
        markouts.len() == s.after_all(a).k,
        s.after_all(a).gives(markouts, r),
        s.after_all(b).gives(markouts, q),
    ensures
        r.order@ == q.order@,
        r.assign@ == q.assign@,
{
    law_equal_answers_give_equal_states(s, a, b);
    let keys = keys_of(markouts);
    assert forall|i: int| 0 <= i < r.assign@.len() implies r.assign@[i] == q.assign@[i] by {
        let x = r.assign@[i] as int;
        let y = q.assign@[i] as int;
        if x < y {
            assert(precedes(keys, r.order@[x] as int, r.order@[y] as int));
        } else if y < x {
            assert(precedes(keys, r.order@[y] as int, r.order@[x] as int));
        }
    }
    assert(r.assign@ =~= q.assign@);
}

/// Answers that a search expects keep its state consistent.
proof fn lemma_stays_consistent(s: State, answers: Seq<Answer>)
    requires
        s.consistent(),
        s.expects_all(answers),
    ensures
        s.after_all(answers).consistent(),
        s.after_all(answers).restarts == s.restarts,
    decreases answers.len(),
{
    if answers.len() > 0 {
        let before = s.after_all(answers.drop_last());
        lemma_stays_consistent(s, answers.drop_last());
        match (before.phase, answers.last()) {
            (Phase::Weigh, Answer::Weights { left, weights }) => {
                lemma_covering_in_range(left@, weights@, 0);
            },
            (Phase::Measure, Answer::Distances(d)) => {
                assert forall|i: int| 0 <= i < before.n implies #[trigger] assigned(d@)[i]
                    < before.k by {
                    assert(d@[i]@.len() == before.k);
                    lemma_nearest_in_range(d@[i]@);
                }
            },
            _ => {},
        }
    }
}

proof fn lemma_covering_in_range(left: Seq<Double>, weights: Seq<Double>, i: int)
    requires
        0 <= i <= weights.len(),
        weights.len() > 0,
    ensures
        0 <= covering(left, weights, i) < weights.len(),
    decreases weights.len() - i,
{
    if i < weights.len() {
        lemma_covering_in_range(left, weights, i + 1);
    }
}

/// A search of more runs is the same as one of fewer until that one is done.
proof fn lemma_same_until_done(s: State, more: usize, answers: Seq<Answer>)
    requires
        s.consistent(),
        s.restarts <= more,
        s.expects_all(answers),
    ensures
        s.after_all(answers).phase != Phase::Done ==> (State {
            restarts: more,
            ..s
        }).after_all(answers) == (State { restarts: more, ..s.after_all(answers) }),
        (State { restarts: more, ..s }).after_all(answers).best == s.after_all(answers).best,
    decreases answers.len(),
{
    if answers.len() > 0 {
        let before = answers.drop_last();
        lemma_same_until_done(s, more, before);
        lemma_stays_consistent(s, before);
        assert(s.after_all(before).phase != Phase::Done);
    }
}

/// What is kept never gets worse: the inertia of the best run does not rise.
proof fn lemma_best_does_not_rise(s: State, answers: Seq<Answer>, n: int)
    requires
        0 <= n <= answers.len(),
        s.after_all(answers.take(n)).best is Some,
    ensures
        s.after_all(answers).best is Some,
        !(s.after_all(answers.take(n)).best->0).0.below((s.after_all(answers).best->0).0),
    decreases answers.len(),
{
    if n < answers.len() {
        assert(answers.drop_last().take(n) =~= answers.take(n));
        lemma_best_does_not_rise(s, answers.drop_last(), n);
    } else {
        assert(answers.take(n) =~= answers);
    }
}

/// More runs are no worse: a search of more runs that is given the same answers as one of
/// fewer, and then others, never keeps a larger inertia than that one has kept in the end.
pub proof fn law_more_runs_are_no_worse(
    n: usize,
    k: usize,
    fewer: usize,
    more: usize,
    answers: Seq<Answer>,
    m: int,
)
    requires
        n > 0,
        k > 0,
        0 < fewer <= more,
        0 <= m <= answers.len(),
        State::start(n, k, fewer).expects_all(answers.take(m)),
        State::start(n, k, fewer).after_all(answers.take(m)).phase == Phase::Done,
    ensures
        State::start(n, k, fewer).after_all(answers.take(m)).best is Some,
        State::start(n, k, more).after_all(answers).best is Some,
        !(State::start(n, k, fewer).after_all(answers.take(m)).best->0).0.below(
            (State::start(n, k, more).after_all(answers).best->0).0,
        ),
{
    let s = State::start(n, k, fewer);
    lemma_stays_consistent(s, answers.take(m));
    lemma_same_until_done(s, more, answers.take(m));
    assert(State::start(n, k, more) == (State { restarts: more, ..s }));
    lemma_best_does_not_rise(State::start(n, k, more), answers, m);
}

// ---- laws of the choices ----

/// The generator is a linear congruence modulo two to the sixty-fourth, and a draw is what is
/// left of its state without the last eleven bits.
pub proof fn law_the_generator_is_a_congruence(seed: u64, r: u64)
    requires
        call_ensures(advance, (seed,), r),
    ensures
        exists|q: int|
            seed * 6364136223846793005 + 1442695040888963407 == #[trigger] (q
                * 0x1_0000_0000_0000_0000) + r,
        seed >> 11 == seed / 2048,
{
    let x = seed * 6364136223846793005 + 1442695040888963407;
    let q = x / 0x1_0000_0000_0000_0000;
    assert(x == q * 0x1_0000_0000_0000_0000 + x % 0x1_0000_0000_0000_0000);
    assert(seed >> 11 == seed / 2048) by (bit_vector);
}

/// A row is picked by its weight: the first whose weight is at least what is left of the draw when
/// it is its turn; and the last where there is none such.
pub proof fn law_the_first_covering_row_is_picked(
    left: Vec<Double>,
    weights: Vec<Double>,
    r: usize,
    j: int,
)
    requires
        call_ensures(pick, (&left, &weights), r),
        left@.len() == weights@.len(),
        0 <= j < weights@.len(),
    ensures
        ({
            let covers = |i: int|
                is_number(left@[i]) && is_number(weights@[i]) && units(left@[i]) <= units(
                    weights@[i],
                );
            &&& r < weights@.len()
            &&& j < r ==> !covers(j)
            &&& covers(j) ==> covers(r as int)
            &&& !covers(r as int) ==> r == weights@.len() - 1
        }),
{
    lemma_covering_is_first(left@, weights@, 0, j);
    law_doubles_compare_as_numbers(left@[j], weights@[j]);
    law_doubles_compare_as_numbers(left@[r as int], weights@[r as int]);
}

proof fn lemma_covering_is_first(left: Seq<Double>, weights: Seq<Double>, i: int, j: int)
    requires
        left.len() == weights.len(),
        0 <= i <= j < weights.len(),
    ensures
        ({
            let r = covering(left, weights, i);
            &&& i <= r < weights.len()
            &&& j < r ==> !at_most(left[j], weights[j])
            &&& at_most(left[j], weights[j]) ==> at_most(left[r], weights[r])
            &&& !at_most(left[r], weights[r]) ==> r == weights.len() - 1
        }),
    decreases weights.len() - i,
{
    if !at_most(left[i], weights[i]) {
        if i + 1 < weights.len() {
            if i < j {
                lemma_covering_is_first(left, weights, i + 1, j);
            } else {
                lemma_covering_is_first(left, weights, i + 1, i + 1);
            }
        } else {
            assert(covering(left, weights, i + 1) == weights.len() - 1);
        }
    }
}

/// The nearest centroid is the first that no other is nearer than.
pub proof fn law_the_nearest_centroid_is_chosen(d: Vec<Double>, r: usize, j: int)
    requires
        call_ensures(nearest, (&d,), r),
        comparable(d@),
        0 <= j < d@.len(),
    ensures
        r < d@.len(),
        units(d@[r as int]) <= units(d@[j]) || d@.len() == 1,
        j < r ==> units(d@[r as int]) < units(d@[j]),
{
    law_nearest_is_least(d@, j);
    law_doubles_compare_as_numbers(d@[j], d@[r as int]);
    law_doubles_compare_as_numbers(d@[r as int], d@[j]);
    if d@.len() > 1 {
        assert(!d@[j].nan() && !d@[r as int].nan());
    }
}

/// Each row is assigned to its own nearest centroid, and it is said whether any row changed.
pub proof fn law_rows_go_to_their_nearest_centroid(
    assign: &mut Vec<usize>,
    d: Vec<Vec<Double>>,
    changed: bool,
    i: int,
    c: usize,
)
    requires
        call_ensures(reassign, (assign, &d), changed),
        old(assign)@.len() == d@.len(),
        0 <= i < d@.len(),
        d@[i]@.len() > 0,
        call_ensures(nearest, (&d@[i],), c),
    ensures
        final(assign)@.len() == d@.len(),
        final(assign)@[i] == c,
        !changed ==> old(assign)@[i] == c,
        changed ==> exists|j: int|
            0 <= j < d@.len() && #[trigger] old(assign)@[j] != final(assign)@[j],
{
    assert(final(assign)@[i] == nearest_of(d@[i]@) as usize);
    if changed && !(exists|j: int|
        0 <= j < d@.len() && #[trigger] old(assign)@[j] != final(assign)@[j]) {
        assert(old(assign)@ =~= final(assign)@);
    }
}

/// The rows of a cluster are those that are assigned to it.
pub proof fn law_clusters_hold_their_rows(
    assign: Vec<usize>,
    k: usize,
    r: Vec<Vec<usize>>,
    c: usize,
    i: usize,
)
    requires
        call_ensures(clusters, (&assign, k), r),
        c < k,
        assign@.len() <= usize::MAX,
    ensures
        r@.len() == k,
        r@[c as int]@.contains(i) <==> i < assign@.len() && assign@[i as int] == c,
{
    law_places_hold(assign@, c, i);
    assert(r@[c as int]@ == places_of(assign@, c));
}

// ---- laws of the search ----

/// A search starts with its first draw, from the golden ratio's bits, and with nothing done.
pub proof fn law_a_search_starts_afresh(
    n: usize,
    k: usize,
    restarts: usize,
    r: Search,
    t: Task,
    seed: u64,
)
    requires
        call_ensures(Search::new, (n, k, restarts), r),
        call_ensures(Search::task, (&r,), t),
        call_ensures(advance, (0x9E37_79B9_7F4A_7C15u64,), seed),
    ensures
        r.n == n && r.k == k && r.restarts == restarts,
        r.runs == 0,
        r.best is None,
        r.seed == seed,
        t == (Task::First { draw: seed / 2048 }),
{
    let s = r@;
    assert(s.phase == r.phase && s.seed == r.seed && s.runs == r.runs && s.n == r.n && s.k == r.k
        && s.restarts == r.restarts);
    assert(seed >> 11 == seed / 2048) by (bit_vector);
}

/// A run is seeded with as many centroids as there are clusters: the row that is drawn first, then
/// one row after another by its weight, each with a draw of its own; and then it is measured,
/// with all rows in the first cluster.
pub proof fn law_runs_are_seeded_with_k_centroids(
    s: &mut Search,
    a: Answer,
    t: Task,
    seed: u64,
    picked: usize,
    i: int,
)
    requires
        call_ensures(Search::step, (s, a), t),
        old(s)@.expects(a),
        call_ensures(advance, (old(s).seed,), seed),
        a matches Answer::Weights { left, weights } ==> call_ensures(
            pick,
            (&left, &weights),
            picked,
        ),
    ensures
        old(s).phase == Phase::First ==> (a matches Answer::Row(row) && t == (Task::Add {
            row,
        })),
        old(s).phase == Phase::Weigh ==> t == (Task::Add { row: picked }),
        old(s).phase == Phase::Add && old(s).centroids + 1 < old(s).k ==> t == (Task::Weigh {
            draw: seed / 2048,
        }) && final(s).seed == seed && final(s).centroids == old(s).centroids + 1,
        old(s).phase == Phase::Add && old(s).centroids + 1 >= old(s).k && old(s).centroids
            < usize::MAX ==> t == Task::Measure && final(s).rounds == 0 && final(s).assign@.len()
            == old(s).n && (0 <= i < old(s).n ==> final(s).assign@[i] == 0) && final(s).seed
            == old(s).seed,
        final(s).n == old(s).n && final(s).k == old(s).k && final(s).restarts == old(s).restarts,
{
    let x = old(s)@;
    let y = final(s)@;
    assert(y == x.after(a));
    assert(x.phase == old(s).phase && x.seed == old(s).seed && x.centroids == old(s).centroids && x.k
        == old(s).k && x.n == old(s).n && x.restarts == old(s).restarts);
    assert(y.phase == final(s).phase && y.seed == final(s).seed && y.centroids == final(s).centroids && y.k == final(s).k && y.n == final(s).n && y.restarts == final(s).restarts
        && y.rounds == final(s).rounds && y.assign == final(s).assign@ && y.row == final(s).row);
    assert(seed >> 11 == seed / 2048) by (bit_vector);
}

/// A run goes in rounds: each row goes to its nearest centroid, and each centroid to its rows. It
/// ends with a round in which no row changed its cluster, and after a hundred rounds at the
/// latest; then it is scored.
pub proof fn law_runs_end_when_nothing_changes(s: &mut Search, a: Answer, t: Task, i: int, c: usize)
    requires
        call_ensures(Search::step, (s, a), t),
        old(s)@.expects(a),
        0 <= i < old(s).n,
        old(s).rounds < usize::MAX,
        a matches Answer::Distances(d) ==> call_ensures(nearest, (&d@[i],), c),
    ensures
        old(s).phase == Phase::Measure ==> final(s).assign@.len() == old(s).n
            && final(s).assign@[i] == c && final(s).rounds == old(s).rounds + 1 && (
        final(s).changed <==> final(s).assign@ != old(s).assign@) && t is Recentre,
        old(s).phase == Phase::Recentre && old(s).changed && old(s).rounds < 100 ==> t
            == Task::Measure,
        old(s).phase == Phase::Recentre && (!old(s).changed || old(s).rounds >= 100) ==> t
            == Task::Score,
        old(s).phase == Phase::Recentre ==> final(s).assign@ == old(s).assign@ && final(s).rounds
            == old(s).rounds,
{
    let x = old(s)@;
    let y = final(s)@;
    assert(y == x.after(a));
    assert(x.phase == old(s).phase && x.rounds == old(s).rounds && x.changed == old(s).changed
        && x.n == old(s).n && x.assign == old(s).assign@);
    assert(y.phase == final(s).phase && y.rounds == final(s).rounds && y.changed == final(s).changed && y.assign == final(s).assign@);
}

/// The rows that a centroid moves to are those that are assigned to its cluster.
pub proof fn law_centroids_move_to_their_rows(s: Search, t: Task, c: usize, i: usize)
    requires
        call_ensures(Search::task, (&s,), t),
        s.phase == Phase::Recentre,
        c < s.k,
        s.assign@.len() <= usize::MAX,
    ensures
        t matches Task::Recentre { rows } && rows@.len() == s.k && (rows@[c as int]@.contains(i)
            <==> i < s.assign@.len() && s.assign@[i as int] == c),
{
    law_places_hold(s.assign@, c, i);
    assert(s@.phase == s.phase && s@.assign == s.assign@ && s@.k == s.k);
    let rows = t->rows;
    assert(rows@[c as int]@ == places_of(s.assign@, c));
}

/// A run is kept where none was before, or its inertia is less than that of the one that is kept,
/// and not otherwise; then comes the next run, with a draw of its own, or the end once all have
/// been.
pub proof fn law_the_better_run_is_kept(s: &mut Search, a: Answer, t: Task, seed: u64)
    requires
        call_ensures(Search::step, (s, a), t),
        old(s)@.expects(a),
        old(s).runs < old(s).restarts,
        call_ensures(advance, (old(s).seed,), seed),
    ensures
        ({
            let better = a matches Answer::Inertia(x) && match old(s).best {
                None => true,
                Some(b) => is_number(x) && is_number(b.inertia) && units(x) < units(b.inertia),
            };
            let scored = old(s).phase == Phase::Score;
            let over = old(s).phase == Phase::Keep || (scored && !better);
            &&& scored && better ==> t == Task::Keep && (final(s).best matches Some(b) && a
                == Answer::Inertia(b.inertia) && b.assign@ == old(s).assign@) && final(s).runs
                == old(s).runs
            &&& over ==> final(s).runs == old(s).runs + 1 && final(s)@.best == old(s)@.best
            &&& over && old(s).runs + 1 < old(s).restarts ==> t == (Task::First {
                draw: seed / 2048,
            }) && final(s).centroids == 0 && final(s).seed == seed
            &&& over && old(s).runs + 1 == old(s).restarts ==> t == Task::Done
        }),
{
    let x = old(s)@;
    let y = final(s)@;
    assert(y == x.after(a));
    assert(x.phase == old(s).phase && x.runs == old(s).runs && x.restarts == old(s).restarts
        && x.seed == old(s).seed && x.assign == old(s).assign@);
    assert(y.phase == final(s).phase && y.runs == final(s).runs && y.seed == final(s).seed
        && y.centroids == final(s).centroids);
    assert(seed >> 11 == seed / 2048) by (bit_vector);
    if let Answer::Inertia(v) = a {
        if let Some(b) = old(s).best {
            law_doubles_compare_as_numbers(v, b.inertia);
            assert(x.best == Some((b.inertia, b.assign@)));
        }
        if let Some(b) = final(s).best {
            assert(y.best == Some((b.inertia, b.assign@)));
        }
    }
}

/// In the end the clusters of the best run are numbered by their centroids' markouts, the least
/// first and of equal ones the earlier; and each row is of the cluster that the run gave it, by
/// its number.
pub proof fn law_clusters_are_numbered_by_markout(
    s: Search,
    markouts: Vec<Double>,
    r: Clusters,
    i: int,
    j: int,
    row: int,
    b: Best,
)
    requires
        call_ensures(Search::finish, (&s, &markouts), r),
        markouts@.len() == s.k,
        s.best == Some(b),
        0 <= row < s.n,
    ensures
        r.order@.len() == s.k,
        0 <= i < j < s.k ==> units(markouts@[r.order@[i] as int]) <= units(
            markouts@[r.order@[j] as int],
        ),
        0 <= i < j < s.k && units(markouts@[r.order@[i] as int]) == units(
            markouts@[r.order@[j] as int],
        ) ==> r.order@[i] < r.order@[j],
        r.assign@.len() == s.n,
        r.assign@[row] < s.k,
        r.order@[r.assign@[row] as int] == b.assign@[row],
{
    let keys = keys_of(markouts@);
    if 0 <= i < j < s.k {
        assert(precedes(keys, r.order@[i] as int, r.order@[j] as int));
        law_doubles_compare_as_numbers(
            markouts@[r.order@[i] as int],
            markouts@[r.order@[j] as int],
        );
    }
    assert(s@.best == Some((b.inertia, b.assign@)));
    assert(s@.n == s.n && s@.k == s.k);
    assert(r.assign@[row] < s.k);
}

} // verus!
