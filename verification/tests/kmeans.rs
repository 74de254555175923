use hl_blockscope::double::Double;
use hl_blockscope::kmeans::{
    advance, clusters, nearest, pick, reassign, Answer, Search, Task, FACTOR, OFFSET, SEED,
};

fn d(x: f64) -> Double {
    Double { bits: x.to_bits() }
}

fn ds(v: &[f64]) -> Vec<Double> {
    v.iter().map(|x| d(*x)).collect()
}

fn dist2(a: &[f64; 2], b: &[f64; 2]) -> f64 {
    (0..2).map(|j| (a[j] - b[j]).powi(2)).sum()
}

fn unit(draw: u64) -> f64 {
    draw as f64 / (1u64 << 53) as f64
}

fn centre(x: &[[f64; 2]], rows: &[usize]) -> [f64; 2] {
    std::array::from_fn(|j| rows.iter().map(|i| x[*i][j]).sum::<f64>() / rows.len() as f64)
}

/// The clusters that the search finds, and how many answers it took.
fn search(x: &[[f64; 2]], k: usize, restarts: usize) -> (Vec<usize>, Vec<[f64; 2]>, usize) {
    let n = x.len();
    let mut s = Search::new(n, k, restarts);
    let mut c: Vec<[f64; 2]> = Vec::new();
    let mut kept: Vec<[f64; 2]> = Vec::new();
    let mut answers = 0;
    let mut task = s.task();
    loop {
        let answer = match task {
            Task::First { draw } => {
                c.clear();
                Answer::Row((unit(draw) * n as f64) as usize)
            }
            Task::Weigh { draw } => {
                let w: Vec<f64> = x
                    .iter()
                    .map(|p| c.iter().map(|q| dist2(p, q)).fold(f64::MAX, f64::min))
                    .collect();
                let mut r = unit(draw) * w.iter().sum::<f64>();
                let mut left = Vec::new();
                for wi in &w {
                    left.push(d(r));
                    r -= wi;
                }
                Answer::Weights { left, weights: ds(&w) }
            }
            Task::Add { row } => {
                c.push(x[row]);
                Answer::Ready
            }
            Task::Measure => Answer::Distances(
                x.iter().map(|p| c.iter().map(|q| d(dist2(p, q))).collect()).collect(),
            ),
            Task::Recentre { rows } => {
                for (cent, own) in c.iter_mut().zip(&rows) {
                    if !own.is_empty() {
                        *cent = centre(x, own);
                    }
                }
                Answer::Ready
            }
            Task::Score => {
                let inertia: f64 = x.iter().zip(&s.assign).map(|(p, a)| dist2(p, &c[*a])).sum();
                Answer::Inertia(d(inertia))
            }
            Task::Keep => {
                kept = c.clone();
                Answer::Ready
            }
            Task::Done => break,
        };
        answers += 1;
        task = s.step(answer);
    }
    let by_cluster: Vec<Double> = kept.iter().map(|q| d(q[1])).collect();
    let r = s.finish(&by_cluster);
    (r.assign, r.order.iter().map(|o| kept[*o]).collect(), answers)
}

/// The same search, written out in one piece.
fn plain(x: &[[f64; 2]], k: usize, restarts: usize) -> (Vec<usize>, Vec<[f64; 2]>) {
    let n = x.len();
    let mut seed = SEED;
    let mut rnd = move || {
        seed = seed.wrapping_mul(FACTOR).wrapping_add(OFFSET);
        unit(seed >> 11)
    };
    let mut best: Option<(f64, Vec<usize>, Vec<[f64; 2]>)> = None;
    for _ in 0..restarts {
        let mut c = vec![x[(rnd() * n as f64) as usize]];
        while c.len() < k {
            let w: Vec<f64> = x
                .iter()
                .map(|p| c.iter().map(|q| dist2(p, q)).fold(f64::MAX, f64::min))
                .collect();
            let mut r = rnd() * w.iter().sum::<f64>();
            let mut row = n - 1;
            for (i, wi) in w.iter().enumerate() {
                if r <= *wi {
                    row = i;
                    break;
                }
                r -= wi;
            }
            c.push(x[row]);
        }
        let mut assign = vec![0usize; n];
        for _ in 0..100 {
            let now: Vec<usize> = x
                .iter()
                .map(|p| {
                    (0..k)
                        .min_by(|a, b| dist2(p, &c[*a]).partial_cmp(&dist2(p, &c[*b])).unwrap())
                        .unwrap()
                })
                .collect();
            let changed = now != assign;
            assign = now;
            for (ci, cent) in c.iter_mut().enumerate() {
                let own: Vec<usize> = (0..n).filter(|i| assign[*i] == ci).collect();
                if !own.is_empty() {
                    *cent = centre(x, &own);
                }
            }
            if !changed {
                break;
            }
        }
        let inertia: f64 = x.iter().zip(&assign).map(|(p, a)| dist2(p, &c[*a])).sum();
        if best.as_ref().map_or(true, |b| inertia < b.0) {
            best = Some((inertia, assign, c));
        }
    }
    let (_, assign, c) = best.unwrap();
    let mut order: Vec<usize> = (0..k).collect();
    order.sort_by(|a, b| c[*a][1].partial_cmp(&c[*b][1]).unwrap());
    let place = |ci: usize| order.iter().position(|o| *o == ci).unwrap();
    (assign.into_iter().map(place).collect(), order.iter().map(|o| c[*o]).collect())
}

fn scattered(n: usize) -> Vec<[f64; 2]> {
    let mut s = 12345u64;
    (0..n)
        .map(|_| {
            std::array::from_fn(|_| {
                s = advance(s);
                (s >> 40) as f64 / 1000.0
            })
        })
        .collect()
}

#[test]
fn the_generator() {
    assert_eq!(advance(0), OFFSET);
    assert_eq!(advance(1), FACTOR.wrapping_add(OFFSET));
    let mut s = SEED;
    for _ in 0..1000 {
        let next = s.wrapping_mul(6364136223846793005).wrapping_add(1442695040888963407);
        assert_eq!(advance(s), next);
        assert!(next >> 11 < 1 << 53);
        s = next;
    }
}

#[test]
fn rows_are_picked_by_weight() {
    assert_eq!(pick(&ds(&[0.5, 0.4, 0.1]), &ds(&[0.1, 0.3, 0.2])), 2);
    assert_eq!(pick(&ds(&[0.5, 0.3, 0.1]), &ds(&[0.1, 0.3, 0.2])), 1);
    assert_eq!(pick(&ds(&[0.0, 0.0]), &ds(&[0.0, 1.0])), 0);
    assert_eq!(pick(&ds(&[5.0, 4.0]), &ds(&[1.0, 1.0])), 1);
    assert_eq!(pick(&ds(&[f64::NAN, f64::NAN, f64::NAN]), &ds(&[1.0, 1.0, 1.0])), 2);
}

#[test]
fn the_first_nearest_wins() {
    assert_eq!(nearest(&ds(&[2.0, 1.0, 1.0, 3.0])), 1);
    assert_eq!(nearest(&ds(&[0.0, -0.0])), 0);
    assert_eq!(nearest(&ds(&[f64::NAN])), 0);
}

#[test]
fn rows_are_reassigned() {
    let mut assign = vec![0, 0];
    let far = vec![ds(&[1.0, 2.0]), ds(&[2.0, 1.0])];
    assert!(reassign(&mut assign, &far));
    assert_eq!(assign, vec![0, 1]);
    assert!(!reassign(&mut assign, &far));
    assert_eq!(clusters(&vec![0, 2, 0, 2], 3), vec![vec![0, 2], vec![], vec![1, 3]]);
}

#[test]
fn two_heaps_are_told_apart() {
    let x: Vec<[f64; 2]> =
        vec![[0.0, 9.0], [0.1, 9.1], [5.0, 1.0], [0.0, 9.2], [5.1, 1.1], [5.0, 0.9]];
    let (assign, centroids, _) = search(&x, 2, 10);
    assert_eq!(assign, vec![1, 1, 0, 1, 0, 0]);
    assert!(centroids[0][1] < centroids[1][1]);
}

#[test]
fn the_search_is_the_plain_one() {
    for (n, k, restarts) in [(1, 1, 1), (2, 2, 3), (7, 3, 10), (40, 4, 10), (60, 7, 5), (30, 1, 2)] {
        let x = scattered(n);
        let (assign, centroids, _) = search(&x, k, restarts);
        let (expected, places) = plain(&x, k, restarts);
        assert_eq!(assign, expected, "{n} {k}");
        assert_eq!(centroids, places, "{n} {k}");
    }
}

#[test]
fn equal_rows_still_end() {
    let x = vec![[1.0, 1.0]; 5];
    let (assign, centroids, _) = search(&x, 3, 2);
    assert_eq!(assign.len(), 5);
    assert!(assign.iter().all(|a| *a < 3));
    assert_eq!(centroids, vec![[1.0, 1.0]; 3]);
    assert_eq!((assign, centroids), plain(&x, 3, 2));
}

#[test]
fn the_search_ends_and_repeats() {
    let x = scattered(80);
    let (a, b, answers) = search(&x, 5, 10);
    assert!(answers <= 10 * (2 * 5 + 2 * 100 + 2));
    assert_eq!(search(&x, 5, 10), (a.clone(), b.clone(), answers));
    assert!(b.windows(2).all(|w| w[0][1] <= w[1][1]));
}

#[test]
fn the_run_of_least_inertia_is_kept() {
    let mut s = Search::new(1, 1, 4);
    let mut kept = 0;
    for inertia in [3.0, 5.0, 2.0, 2.0] {
        assert!(matches!(s.task(), Task::First { .. }));
        s.step(Answer::Row(0));
        s.step(Answer::Ready);
        s.step(Answer::Distances(vec![ds(&[0.0])]));
        assert!(matches!(s.step(Answer::Ready), Task::Score));
        if matches!(s.step(Answer::Inertia(d(inertia))), Task::Keep) {
            kept += 1;
            s.step(Answer::Ready);
        }
    }
    assert!(matches!(s.task(), Task::Done));
    assert_eq!(kept, 2);
    assert_eq!(s.best.as_ref().map(|b| f64::from_bits(b.inertia.bits)), Some(2.0));
}

#[test]
fn a_run_has_a_hundred_rounds_at_most() {
    let mut s = Search::new(1, 2, 1);
    s.step(Answer::Row(0));
    s.step(Answer::Ready);
    s.step(Answer::Weights { left: ds(&[0.0]), weights: ds(&[1.0]) });
    s.step(Answer::Ready);
    let mut rounds = 0;
    while matches!(s.task(), Task::Measure) {
        let far = if rounds % 2 == 0 { ds(&[2.0, 1.0]) } else { ds(&[1.0, 2.0]) };
        s.step(Answer::Distances(vec![far]));
        s.step(Answer::Ready);
        rounds += 1;
    }
    assert_eq!(rounds, 100);
    assert!(matches!(s.task(), Task::Score));
}

#[test]
fn more_runs_are_no_worse() {
    let x = scattered(50);
    let mut last = f64::INFINITY;
    for restarts in 1..12 {
        let (assign, centroids, _) = search(&x, 6, restarts);
        let inertia: f64 = x.iter().zip(&assign).map(|(p, a)| dist2(p, &centroids[*a])).sum();
        assert!(inertia <= last + 1e-6);
        last = inertia;
    }
}
