//! Tests of the arithmetic on doubles, against that of the machine.

use mapscii::double::Double;

fn d(x: f64) -> Double {
    Double::from_bits(x.to_bits())
}

fn f(x: Double) -> f64 {
    f64::from_bits(x.bits)
}

fn samples() -> Vec<f64> {
    let mut all = vec![
        0.0,
        5e-324,
        1e-323,
        1.5e-323,
        f64::MIN_POSITIVE,
        f64::MIN_POSITIVE - 5e-324,
        0.1,
        0.5,
        1.0,
        1.0 + f64::EPSILON,
        1.0 - f64::EPSILON / 2.0,
        1.5,
        2.0,
        3.0,
        4503599627370496.0,
        4503599627370497.0,
        9007199254740991.0,
        9007199254740992.0,
        9007199254740994.0,
        1e16,
        1e17,
        1e300,
        8.98846567431158e307,
        f64::MAX,
        f64::MAX / 2.0,
    ];
    // A walk over the patterns of all exponents.
    let mut bits: u64 = 0x1234_5678_9abc_def1;
    for _ in 0..200 {
        bits = bits.wrapping_mul(6364136223846793005).wrapping_add(1442695040888963407);
        let x = f64::from_bits(bits & 0x7fff_ffff_ffff_ffff);
        if x.is_finite() {
            all.push(x);
        }
        all.push(f64::from_bits((bits >> 12) | (0x3ff_u64 + (bits & 63)) << 52));
    }
    let negative: Vec<f64> = all.iter().map(|x| -x).collect();
    all.extend(negative);
    all
}

#[test]
fn sums_are_those_of_the_machine() {
    let all = samples();
    for &a in &all {
        for &b in &all {
            assert_eq!(f(d(a).plus(&d(b))), a + b);
            assert_eq!(f(d(a).minus(&d(b))), a - b);
        }
    }
}

#[test]
fn ties_go_to_even() {
    let big = 9007199254740992.0;
    assert_eq!(f(d(big).plus(&d(1.0))), big);
    assert_eq!(f(d(big + 2.0).plus(&d(1.0))), big + 4.0);
    assert_eq!(f(d(big).minus(&d(0.5))), big);
    assert_eq!(f(d(big).minus(&d(1.0))), big - 1.0);
}

#[test]
fn large_sums_are_infinite() {
    assert_eq!(f(d(f64::MAX).plus(&d(f64::MAX))), f64::INFINITY);
    assert_eq!(f(d(f64::MAX).plus(&d(1e292))), f64::INFINITY);
    assert_eq!(f(d(f64::MAX).plus(&d(1e291))), f64::MAX);
    assert_eq!(f(d(f64::INFINITY).plus(&d(-1.0))), f64::INFINITY);
    assert_eq!(f(d(3.0).minus(&d(f64::INFINITY))), f64::NEG_INFINITY);
}

#[test]
fn halves_and_floors_are_those_of_the_machine() {
    for x in samples() {
        assert_eq!(f(d(x).half()), x / 2.0);
        assert_eq!(f(d(x).floored()), x.floor());
        assert_eq!(f(d(x).floor_of_part(1)), (x / 2.0).floor());
        assert_eq!(f(d(x).floor_of_part(2)), (x / 4.0).floor());
    }
}

#[test]
fn rounding_keeps_the_order() {
    let mut all = samples();
    all.sort_by(|a, b| a.total_cmp(b));
    for c in [0.1, -1e16, 3e-320] {
        let sums: Vec<f64> = all.iter().map(|&x| f(d(x).plus(&d(c)))).collect();
        assert!(sums.windows(2).all(|w| w[0] <= w[1]));
    }
}
