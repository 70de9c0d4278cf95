//! Tests of the numbers against the machine's own.

use mapscii::double::Double;

fn d(x: f64) -> Double {
    Double::from_bits(x.to_bits())
}

const SAMPLES: [f64; 22] = [
    0.0,
    -0.0,
    0.25,
    -0.25,
    0.5,
    -0.5,
    0.9999999,
    1.0,
    -1.0,
    1.5,
    -1.5,
    2.5,
    1e-300,
    -1e-300,
    5e-324,
    2147483647.0,
    2147483648.5,
    -2147483649.0,
    1e300,
    f64::INFINITY,
    f64::NEG_INFINITY,
    f64::NAN,
];

#[test]
fn comparisons_match() {
    for a in SAMPLES {
        for b in SAMPLES {
            assert_eq!(d(a).is_below(&d(b)), a < b, "{a} < {b}");
            assert_eq!(d(a).is_at_most(&d(b)), a <= b, "{a} <= {b}");
            assert_eq!(d(a).is_same(&d(b)), a == b, "{a} == {b}");
            assert_eq!(d(a).is_near(&d(b)), (a - b).abs() < f64::EPSILON, "{a} near {b}");
        }
    }
}

#[test]
fn near_at_the_edge() {
    let eps = f64::EPSILON;
    for (a, b) in [(1.0, 1.0 + eps), (0.0, eps), (0.0, eps / 2.0), (0.5, 0.5 + eps / 2.0)] {
        assert_eq!(d(a).is_near(&d(b)), (a - b as f64).abs() < eps);
    }
    let below = f64::from_bits(eps.to_bits() - 1);
    assert!(d(0.0).is_near(&d(below)));
    assert!(!d(0.0).is_near(&d(eps)));
}

#[test]
fn rounding_matches() {
    for a in SAMPLES {
        assert_eq!(d(a).floor_i32(), a.floor() as i32, "floor {a}");
        assert_eq!(d(a).ceil_i32(), a.ceil() as i32, "ceil {a}");
        assert_eq!(d(a).round_i32(), a.round() as i32, "round {a}");
        assert_eq!(d(a).to_i32(), a as i32, "cast {a}");
    }
}

#[test]
fn extremes_match() {
    for a in SAMPLES {
        for b in SAMPLES {
            if a.is_nan() && b.is_nan() {
                continue;
            }
            let least = f64::from_bits(d(a).min(&d(b)).bits);
            let most = f64::from_bits(d(a).max(&d(b)).bits);
            assert!(least == a.min(b));
            assert!(most == a.max(b));
        }
    }
}

#[test]
fn integers_match() {
    for n in [0u64, 1, 2, 3, 1 << 52, (1 << 53) - 1, (1 << 53) + 1, (1 << 53) + 3, u64::MAX] {
        assert_eq!(Double::from_u64(n).bits, (n as f64).to_bits(), "{n}");
    }
    for n in [0i64, -1, 42, -42, i64::MIN, i64::MAX, (1 << 54) + 2] {
        assert_eq!(Double::from_i64(n).bits, (n as f64).to_bits(), "{n}");
    }
    for n in [1u64, 3, 7, (1 << 52) - 1] {
        assert_eq!(Double::half_of(n).bits, (n as f64 / 2.0).to_bits(), "{n}");
    }
}

#[test]
fn sixteenths_match() {
    for a in SAMPLES {
        for k in 0..16u8 {
            assert_eq!(d(a).is_above_sixteenths(k), a > k as f64 / 16.0, "{a} {k}");
        }
    }
}

#[test]
fn negation_matches() {
    for a in SAMPLES {
        assert_eq!(d(a).negate().bits, (-a).to_bits());
    }
}
