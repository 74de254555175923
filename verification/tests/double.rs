use hl_blockscope::double::{Double, FIVE, INFINITY, MAX, NAN, ONE, TWO, ZERO};

fn d(x: f64) -> Double {
    Double { bits: x.to_bits() }
}

fn samples() -> Vec<f64> {
    vec![
        0.0,
        -0.0,
        1.0,
        -1.0,
        0.5,
        2.0,
        5.0,
        -5.0,
        1e-300,
        -1e-300,
        5e-324,
        1e300,
        -1e300,
        f64::MAX,
        f64::MIN,
        f64::INFINITY,
        f64::NEG_INFINITY,
        f64::NAN,
        -f64::NAN,
        64000.25,
        63999.75,
    ]
}

#[test]
fn constants_are_what_they_say() {
    assert_eq!(f64::from_bits(ZERO), 0.0);
    assert_eq!(f64::from_bits(ONE), 1.0);
    assert_eq!(f64::from_bits(TWO), 2.0);
    assert_eq!(f64::from_bits(FIVE), 5.0);
    assert_eq!(f64::from_bits(MAX), f64::MAX);
    assert_eq!(f64::from_bits(INFINITY), f64::INFINITY);
    assert!(f64::from_bits(NAN).is_nan());
}

#[test]
fn comparisons_agree_with_doubles() {
    for a in samples() {
        assert_eq!(d(a).is_nan(), a.is_nan());
        for b in samples() {
            assert_eq!(d(a).lt(d(b)), a < b, "{a} {b}");
            assert_eq!(d(a).eq(d(b)), a == b, "{a} {b}");
            if !a.is_nan() && !b.is_nan() {
                assert_eq!(d(a).order_key() < d(b).order_key(), a < b, "{a} {b}");
            }
        }
    }
}

#[test]
fn magnitudes_and_minima_agree_with_doubles() {
    for a in samples() {
        assert_eq!(d(a).abs().bits, a.abs().to_bits());
        for b in samples() {
            let m = f64::from_bits(d(a).min(d(b)).bits);
            let expected = a.min(b);
            assert!(m == expected || (m.is_nan() && expected.is_nan()), "{a} {b}");
        }
    }
}
