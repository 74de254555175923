use hl_blockscope::order::{percentile, rank, stable_order};

#[test]
fn orders_are_stable() {
    assert_eq!(stable_order(&vec![]), Vec::<usize>::new());
    assert_eq!(stable_order(&vec![3, 1, 2]), vec![1, 2, 0]);
    assert_eq!(stable_order(&vec![2, 1, 2, 1, 2]), vec![1, 3, 0, 2, 4]);
    assert_eq!(stable_order(&vec![-5, 5, -6, 0]), vec![2, 0, 3, 1]);
}

#[test]
fn ranks_agree_with_rounding() {
    for n in 1..600usize {
        for p in [10u64, 25, 50, 75, 90, 95] {
            let expected = ((n - 1) as f64 * (p as f64 / 100.0)).round() as usize;
            assert_eq!(rank(n, p), expected, "{n} {p}");
        }
    }
}

#[test]
fn quantiles_of_numbers() {
    assert_eq!(percentile(&mut vec![], 50), 0);
    assert_eq!(percentile(&mut vec![7], 95), 7);
    let mut v = vec![40, 10, 30, 20];
    assert_eq!(percentile(&mut v, 50), 30);
    assert_eq!(v, vec![10, 20, 30, 40]);
    assert_eq!(percentile(&mut vec![40, 10, 30, 20], 0), 10);
    assert_eq!(percentile(&mut vec![40, 10, 30, 20], 100), 40);
}

#[test]
fn quantiles_ascend_with_their_percentage() {
    let v: Vec<u64> = (0..57).map(|i| i * 7919 % 101).collect();
    let mut last = 0;
    for p in 0..=100 {
        let q = percentile(&mut v.clone(), p);
        assert!(q >= last);
        assert!(v.contains(&q));
        last = q;
    }
}
