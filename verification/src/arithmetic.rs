//! Sums, halves and floors of double-precision numbers, rounded as IEEE 754
//! asks: to the nearest number, of two that are equally near to the one with an
//! even mantissa.

use crate::double::{
    double_at, double_of, excess_bits, exponent_field, lemma_below_power, lemma_compose, lemma_double_at,
    lemma_magnitude_order, lemma_split_mantissa, magnitude, mantissa, nearest, one, scale_of,
    Double, HIDDEN_BIT, INFINITY, SIGN_BIT,
};
use vstd::arithmetic::div_mod::*;
use vstd::arithmetic::mul::*;
use vstd::arithmetic::power2::*;
use vstd::prelude::*;

verus! {

// -- Rounding --------------------------------------------------------------

/// The value that infinity counts as, in units of 2^-1074.
pub open spec fn beyond() -> int {
    pow2(2098) as int
}

/// What a value in units of 2^-1074 is rounded to.
pub open spec fn rounded_value(v: int) -> int {
    if v >= 0 {
        if nearest(v as nat) < beyond() {
            nearest(v as nat) as int
        } else {
            beyond()
        }
    } else if nearest((-v) as nat) < beyond() {
        -(nearest((-v) as nat) as int)
    } else {
        -beyond()
    }
}

/// The length of a number decides by how many bits it is too long.
proof fn lemma_excess_bits(n: nat, e: nat)
    requires
        e > 0 ==> HIDDEN_BIT * pow2(e) <= n,
        n < 2 * HIDDEN_BIT * pow2(e),
    ensures
        excess_bits(n) == e,
    decreases e,
{
    lemma2_to64();
    if e > 0 {
        lemma_pow2_unfold(e);
        lemma_pow2_pos((e - 1) as nat);
        let p = pow2((e - 1) as nat) as int;
        assert(HIDDEN_BIT * (2 * p) == 2 * (HIDDEN_BIT * p) && 2 * HIDDEN_BIT * (2 * p) == 2 * (2
            * HIDDEN_BIT * p)) by (nonlinear_arith);
        assert(HIDDEN_BIT * p >= HIDDEN_BIT) by (nonlinear_arith)
            requires
                p >= 1,
        ;
        assert(n >= 2 * HIDDEN_BIT);
        lemma_excess_bits(n / 2, (e - 1) as nat);
    } else {
        assert(2 * HIDDEN_BIT * pow2(e) == 2 * HIDDEN_BIT) by (nonlinear_arith)
            requires
                pow2(e) == 1,
        ;
    }
}

/// How long a number is that is too long by some bits.
proof fn lemma_excess_bounds(n: nat)
    ensures
        excess_bits(n) > 0 ==> HIDDEN_BIT * pow2(excess_bits(n)) <= n,
        n < 2 * HIDDEN_BIT * pow2(excess_bits(n)),
    decreases n,
{
    lemma2_to64();
    if n >= 2 * HIDDEN_BIT {
        lemma_excess_bounds(n / 2);
        let e = excess_bits(n / 2);
        lemma_pow2_unfold(e + 1);
        let p = pow2(e) as int;
        assert(HIDDEN_BIT * (2 * p) == 2 * (HIDDEN_BIT * p) && 2 * HIDDEN_BIT * (2 * p) == 2 * (2
            * HIDDEN_BIT * p)) by (nonlinear_arith);
        if e == 0 {
            assert(p == 1);
        }
    }
}

/// A number that is short enough is not rounded.
proof fn lemma_short_is_exact(n: nat)
    requires
        n < 2 * HIDDEN_BIT,
    ensures
        nearest(n) == n,
{
    lemma2_to64();
    assert(excess_bits(n) == 0);
    assert(n / 1 == n && n % 1 == 0);
    lemma_mul_basics(n as int);
}

proof fn lemma_nearest_doubles(n: nat)
    ensures
        nearest(2 * n) == 2 * nearest(n),
{
    if n < HIDDEN_BIT {
        lemma_short_is_exact(n);
        lemma_short_is_exact(2 * n);
    } else {
        let e = excess_bits(n);
        assert((2 * n) / 2 == n);
        assert(excess_bits(2 * n) == 1 + e);
        lemma_pow2_unfold(e + 1);
        lemma_pow2_pos(e);
        let p = pow2(e) as int;
        let (q, r) = (n as int / p, n as int % p);
        lemma_fundamental_div_mod(n as int, p);
        lemma_mod_bound(n as int, p);
        assert(2 * n == (2 * p) * q + 2 * r) by (nonlinear_arith)
            requires
                n == p * q + r,
        ;
        lemma_fundamental_div_mod_converse((2 * n) as int, 2 * p, q, 2 * r);
        assert((q + 1) * (2 * p) == 2 * ((q + 1) * p) && q * (2 * p) == 2 * (q * p))
            by (nonlinear_arith);
    }
}

/// Rounding does not depend on the scale.
pub proof fn lemma_nearest_scales(n: nat, s: nat)
    ensures
        nearest(n * pow2(s)) == nearest(n) * pow2(s),
    decreases s,
{
    lemma2_to64();
    if s == 0 {
        lemma_mul_basics(n as int);
        lemma_mul_basics(nearest(n) as int);
    } else {
        let t = (s - 1) as nat;
        lemma_nearest_scales(n, t);
        lemma_nearest_doubles(n * pow2(t));
        lemma_pow2_unfold(s);
        assert(n * pow2(s) == 2 * (n * pow2(t)) && nearest(n) * pow2(s) == 2 * (nearest(n) * pow2(
            t,
        ))) by (nonlinear_arith)
            requires
                pow2(s) == 2 * pow2(t),
        ;
    }
}

/// The values of finite numbers are not rounded.
pub proof fn lemma_doubles_are_exact(d: Double)
    requires
        !d.nan(),
    ensures
        rounded_value(d.value()) == d.value(),
        magnitude(d.mag()) <= beyond(),
        d.finite() ==> magnitude(d.mag()) < beyond(),
        nearest(magnitude(d.mag())) == magnitude(d.mag()),
        !d.finite() ==> magnitude(d.mag()) == beyond(),
{
    lemma_infinity();
    lemma_magnitude_order(d.mag(), INFINITY as nat);
    lemma_short_is_exact(mantissa(d.mag()));
    lemma_nearest_scales(mantissa(d.mag()), scale_of(d.mag()));
}

proof fn lemma_infinity()
    ensures
        magnitude(INFINITY as nat) == beyond(),
{
    lemma2_to64_rest();
    lemma_pow2_adds(52, 2046);
    assert(exponent_field(INFINITY as nat) == 2047);
    assert(mantissa(INFINITY as nat) == HIDDEN_BIT);
}

proof fn lemma_nearest_is_monotone(a: nat, b: nat)
    requires
        a <= b,
    ensures
        nearest(a) <= nearest(b),
{
    let (e, g) = (excess_bits(a), excess_bits(b));
    lemma_excess_bounds(a);
    lemma_excess_bounds(b);
    lemma_pow2_pos(e);
    lemma_pow2_pos(g);
    let (p, s) = (pow2(e) as int, pow2(g) as int);
    lemma_fundamental_div_mod(a as int, p);
    lemma_fundamental_div_mod(b as int, s);
    lemma_mod_bound(a as int, p);
    lemma_mod_bound(b as int, s);
    let (q, r) = (a as int / p, a as int % p);
    let (t, u) = (b as int / s, b as int % s);
    assert((q + 1) * p == q * p + p && (t + 1) * s == t * s + s) by (nonlinear_arith);
    assert(p * q == q * p && s * t == t * s) by (nonlinear_arith);
    if e == g {
        lemma_div_is_ordered(a as int, b as int, p);
        if q < t {
            assert((q + 1) * p <= t * p) by (nonlinear_arith)
                requires
                    q + 1 <= t,
                    p > 0,
            ;
        }
    } else if e < g {
        // What is shorter ends below what is longer.
        assert(q < 2 * HIDDEN_BIT) by (nonlinear_arith)
            requires
                p * q + r < 2 * HIDDEN_BIT * p,
                r >= 0,
                p > 0,
        ;
        assert((q + 1) * p <= 2 * HIDDEN_BIT * p) by (nonlinear_arith)
            requires
                q + 1 <= 2 * HIDDEN_BIT,
                p > 0,
        ;
        lemma_pow2_unfold(e + 1);
        if e + 1 < g {
            lemma_pow2_strictly_increases(e + 1, g);
        }
        assert(2 * HIDDEN_BIT * p <= HIDDEN_BIT * s) by (nonlinear_arith)
            requires
                2 * p <= s,
        ;
        assert(t >= HIDDEN_BIT) by (nonlinear_arith)
            requires
                s * t + u >= HIDDEN_BIT * s,
                u < s,
                s > 0,
        ;
        assert(t * s >= HIDDEN_BIT * s) by (nonlinear_arith)
            requires
                t >= HIDDEN_BIT,
                s > 0,
        ;
    } else {
        // A shorter number cannot be the larger one.
        lemma_pow2_unfold(g + 1);
        if g + 1 < e {
            lemma_pow2_strictly_increases(g + 1, e);
        }
        assert(2 * HIDDEN_BIT * s <= HIDDEN_BIT * p) by (nonlinear_arith)
            requires
                2 * s <= p,
        ;
    }
}

/// Rounding does not depend on the sign.
proof fn lemma_rounding_is_odd(v: int)
    ensures
        rounded_value(-v) == -rounded_value(v),
{
    lemma_pow2_pos(2098);
    lemma_short_is_exact(0);
}

/// Rounding keeps the order of numbers.
pub proof fn law_rounding_keeps_the_order(a: int, b: int)
    requires
        a <= b,
    ensures
        rounded_value(a) <= rounded_value(b),
{
    lemma_pow2_pos(2098);
    if a >= 0 {
        lemma_nearest_is_monotone(a as nat, b as nat);
    } else if b < 0 {
        lemma_nearest_is_monotone((-b) as nat, (-a) as nat);
    }
}

/// A number that is so much larger than another is not changed by it.
proof fn lemma_small_addend(m: nat, s: nat, t: nat)
    requires
        HIDDEN_BIT <= m < 2 * HIDDEN_BIT,
        s > 2,
        4 * t < pow2(s),
    ensures
        nearest(m * pow2(s) + t) == m * pow2(s),
        t <= m * pow2(s),
        nearest((m * pow2(s) - t) as nat) == m * pow2(s),
{
    lemma_pow2_pos(s);
    let p = pow2(s) as int;
    let n = m * p;
    assert(HIDDEN_BIT * p <= n && n + p <= 2 * HIDDEN_BIT * p && p <= n) by (nonlinear_arith)
        requires
            HIDDEN_BIT <= m,
            m + 1 <= 2 * HIDDEN_BIT,
            p > 0,
            n == m * p,
    ;
    lemma_excess_bits((n + t) as nat, s);
    lemma_mul_is_commutative(m as int, p);
    lemma_fundamental_div_mod_converse(n + t, p, m as int, t as int);
    if t == 0 {
    } else if m > HIDDEN_BIT {
        assert(n - t >= HIDDEN_BIT * p) by (nonlinear_arith)
            requires
                n == m * p,
                m >= HIDDEN_BIT + 1,
                t < p,
        ;
        lemma_excess_bits((n - t) as nat, s);
        assert(n - t == p * (m - 1) + (p - t)) by (nonlinear_arith)
            requires
                n == m * p,
        ;
        lemma_fundamental_div_mod_converse(n - t, p, m - 1, p - t);
    } else {
        lemma_pow2_unfold(s);
        let h = pow2((s - 1) as nat) as int;
        assert(n == 2 * HIDDEN_BIT * h && HIDDEN_BIT * h + h <= n) by (nonlinear_arith)
            requires
                n == HIDDEN_BIT * p,
                p == 2 * h,
                h > 0,
        ;
        lemma_excess_bits((n - t) as nat, (s - 1) as nat);
        assert(n - t == h * (2 * HIDDEN_BIT - 1) + (h - t)) by (nonlinear_arith)
            requires
                n == 2 * HIDDEN_BIT * h,
        ;
        lemma_fundamental_div_mod_converse(n - t, h, 2 * HIDDEN_BIT - 1, h - t);
        assert((2 * HIDDEN_BIT - 1 + 1) * h == n) by (nonlinear_arith)
            requires
                n == 2 * HIDDEN_BIT * h,
        ;
    }
}

/// A power of two.
fn power(e: u64) -> (r: u128)
    requires
        e <= 67,
    ensures
        r == pow2(e as nat),
        0 < r <= 0x8_0000_0000_0000_0000,
        e <= 64 ==> r <= 0x1_0000_0000_0000_0000,
{
    let mut unit: u128 = 1;
    let mut i: u64 = 0;
    proof {
        lemma2_to64();
        lemma2_to64_rest();
        lemma_pow2_adds(64, 3);
        lemma_pow2_pos(e as nat);
        if e < 67 {
            lemma_pow2_strictly_increases(e as nat, 67);
        }
        if e < 64 {
            lemma_pow2_strictly_increases(e as nat, 64);
        }
    }
    while i < e
        invariant
            i <= e <= 67,
            unit == pow2(i as nat),
            pow2(67) == 0x8_0000_0000_0000_0000,
        decreases e - i,
    {
        proof {
            lemma_pow2_unfold((i + 1) as nat);
            if i + 1 < 67 {
                lemma_pow2_strictly_increases((i + 1) as nat, 67);
            }
        }
        unit = 2 * unit;
        i = i + 1;
    }
    unit
}

/// A number from its digits at a scale, as near as doubles come to it.
fn compose(n: u128, scale: u64) -> (r: Double)
    requires
        n < 0x40_0000_0000_0000_0000_0000_0000_0000,
        scale <= 2045,
    ensures
        !r.nan(),
        !r.negative(),
        r.value() == rounded_value((n * pow2(scale as nat)) as int),
{
    proof {
        lemma2_to64();
        lemma2_to64_rest();
        lemma_nearest_scales(n as nat, scale as nat);
        assert(n as nat / 1 == n);
    }
    let mut q: u128 = n;
    let mut e: u64 = 0;
    while q >= 2 * HIDDEN_BIT as u128
        invariant
            q == n as nat / pow2(e as nat),
            n < 0x40_0000_0000_0000_0000_0000_0000_0000,
            excess_bits(n as nat) == e + excess_bits(q as nat),
            e <= 66,
            q < 0x40_0000_0000_0000_0000_0000_0000_0000,
            e > 0 ==> q >= HIDDEN_BIT,
            q * pow2(e as nat) <= n,
        decreases q,
    {
        proof {
            lemma_pow2_pos(e as nat);
            lemma_pow2_unfold((e + 1) as nat);
            lemma_div_denominator(n as int, pow2(e as nat) as int, 2);
            lemma_mul_is_commutative(2, pow2(e as nat) as int);
            let p = pow2(e as nat) as int;
            assert((q / 2) * (2 * p) <= q * p) by (nonlinear_arith)
                requires
                    p > 0,
            ;
            if e == 66 {
                lemma_pow2_adds(53, 66);
                lemma2_to64_rest();
                lemma_pow2_adds(55, 64);
                assert(q * p >= pow2(53) * p) by (nonlinear_arith)
                    requires
                        q >= pow2(53),
                        p > 0,
                ;
                assert(pow2(119) == 0x80_0000_0000_0000_0000_0000_0000_0000);
            }
        }
        q = q / 2;
        e = e + 1;
    }
    let ghost p = pow2(e as nat) as int;
    proof {
        lemma_pow2_pos(e as nat);
        lemma_fundamental_div_mod(n as int, p);
        lemma_mod_bound(n as int, p);
        lemma_mul_is_commutative(p, q as int);
    }
    let unit: u128 = power(e);
    let rest: u128 = n % unit;
    if rest > unit - rest || (rest == unit - rest && q % 2 == 1) {
        q = q + 1;
    }
    assert(q * p == nearest(n as nat));
    let mut m: u64 = q as u64;
    let mut s: u64 = scale + e;
    let ghost exact = (nearest(n as nat) * pow2(scale as nat)) as int;
    proof {
        lemma_pow2_adds(e as nat, scale as nat);
        assert(m * pow2(s as nat) == exact) by (nonlinear_arith)
            requires
                m * p == nearest(n as nat),
                pow2(s as nat) == p * pow2(scale as nat),
                exact == nearest(n as nat) * pow2(scale as nat),
        ;
    }
    if m == 2 * HIDDEN_BIT {
        proof {
            lemma_pow2_unfold((s + 1) as nat);
            assert(HIDDEN_BIT * (2 * pow2(s as nat)) == (2 * HIDDEN_BIT) * pow2(s as nat))
                by (nonlinear_arith);
        }
        m = HIDDEN_BIT;
        s = s + 1;
    }
    while 0 < m && m < HIDDEN_BIT && s > 0
        invariant
            m < 2 * HIDDEN_BIT,
            s <= 2113,
            m * pow2(s as nat) == exact,
        decreases s,
    {
        proof {
            lemma_pow2_unfold(s as nat);
            assert((2 * m) * pow2((s - 1) as nat) == m * (2 * pow2((s - 1) as nat)))
                by (nonlinear_arith);
        }
        m = 2 * m;
        s = s - 1;
    }
    proof {
        lemma_infinity();
        lemma_pow2_pos(2098);
    }
    if m < HIDDEN_BIT {
        let r: Double = Double { bits: m };
        proof {
            lemma_mul_basics(m as int);
            lemma_mul_basics(pow2(s as nat) as int);
            assert(exact == m);
            lemma_doubles_are_exact(r);
        }
        r
    } else if s >= 2046 {
        proof {
            lemma_pow2_adds(52, 2046);
            if s > 2046 {
                lemma_pow2_strictly_increases(2046, s as nat);
            }
            assert(m * pow2(s as nat) >= HIDDEN_BIT * pow2(2046)) by (nonlinear_arith)
                requires
                    m >= HIDDEN_BIT,
                    pow2(s as nat) >= pow2(2046),
            ;
        }
        Double { bits: INFINITY }
    } else {
        let r: Double = Double { bits: (s + 1) * HIDDEN_BIT + (m - HIDDEN_BIT) };
        proof {
            lemma_compose(m as nat, (s + 1) as nat);
            lemma_doubles_are_exact(r);
        }
        r
    }
}

// -- Sums ------------------------------------------------------------------

/// The sum of two numbers, rounded. Infinity stays infinity, and zero comes
/// without a sign.
pub open spec fn sum_of(a: Double, b: Double) -> Double {
    if !a.finite() {
        a
    } else if !b.finite() {
        b
    } else {
        double_at(rounded_value(a.value() + b.value()))
    }
}

/// The difference of two numbers, rounded.
pub open spec fn difference_of(a: Double, b: Double) -> Double {
    sum_of(a, b.negated())
}

/// Digits and scale of a number.
fn parts(d: &Double) -> (r: (u64, u64))
    requires
        d.finite(),
    ensures
        r.0 == mantissa(d.mag()),
        r.1 == scale_of(d.mag()),
        r.0 < 2 * HIDDEN_BIT,
        r.1 <= 2045,
        r.1 > 0 ==> r.0 >= HIDDEN_BIT,
{
    let mag: u64 = d.bits % SIGN_BIT;
    let field: u64 = mag / HIDDEN_BIT;
    if field == 0 {
        (mag, 0)
    } else {
        (HIDDEN_BIT + mag % HIDDEN_BIT, field - 1)
    }
}

/// The sum of the digits of two numbers at the scale of the lesser one.
proof fn lemma_aligned(mh: nat, sh: nat, ml: nat, sl: nat, n: int, subtract: bool)
    requires
        sl <= sh,
        n == if subtract {
            mh * pow2((sh - sl) as nat) - ml
        } else {
            (mh * pow2((sh - sl) as nat) + ml) as int
        },
    ensures
        n * pow2(sl) == if subtract {
            mh * pow2(sh) - ml * pow2(sl)
        } else {
            (mh * pow2(sh) + ml * pow2(sl)) as int
        },
{
    lemma_pow2_adds((sh - sl) as nat, sl);
    let (d, p) = (pow2((sh - sl) as nat) as int, pow2(sl) as int);
    assert((mh * d - ml) * p == mh * (d * p) - ml * p && (mh * d + ml) * p == mh * (d * p) + ml * p)
        by (nonlinear_arith);
}

/// A number that is far smaller than another does not change it.
proof fn lemma_far_sum(mh: nat, sh: nat, ml: nat, sl: nat)
    requires
        HIDDEN_BIT <= mh < 2 * HIDDEN_BIT,
        ml < 2 * HIDDEN_BIT,
        sh > sl + 64,
    ensures
        nearest(mh * pow2(sh) + ml * pow2(sl)) == mh * pow2(sh),
        ml * pow2(sl) <= mh * pow2(sh),
        nearest((mh * pow2(sh) - ml * pow2(sl)) as nat) == mh * pow2(sh),
{
    let t = ml * pow2(sl);
    lemma_pow2_pos(sl);
    lemma_pow2_adds(53, sl);
    lemma_pow2_adds(2, 53 + sl);
    lemma2_to64();
    lemma2_to64_rest();
    lemma_pow2_strictly_increases(55 + sl, sh);
    assert(t < pow2(53) * pow2(sl)) by (nonlinear_arith)
        requires
            t == ml * pow2(sl),
            ml < pow2(53),
            pow2(sl) > 0,
    ;
    lemma_small_addend(mh, sh, t);
}

/// The size of a sum or difference of magnitudes, given by digits and scales.
fn combine(mh: u64, sh: u64, ml: u64, sl: u64, subtract: bool) -> (r: Double)
    requires
        mh < 2 * HIDDEN_BIT,
        ml < 2 * HIDDEN_BIT,
        sl <= sh <= sl + 64,
        sl <= 2045,
        ml * pow2(sl as nat) <= mh * pow2(sh as nat),
    ensures
        !r.nan(),
        !r.negative(),
        r.value() == rounded_value(
            if subtract {
                mh * pow2(sh as nat) - ml * pow2(sl as nat)
            } else {
                mh * pow2(sh as nat) + ml * pow2(sl as nat)
            },
        ),
{
    let unit: u128 = power(sh - sl);
    let ghost n = if subtract {
        mh * unit - ml
    } else {
        mh * unit + ml
    };
    proof {
        assert(0 <= mh * unit <= 0x1f_ffff_ffff_ffff * 0x1_0000_0000_0000_0000)
            by (nonlinear_arith)
            requires
                0 <= mh <= 0x1f_ffff_ffff_ffff,
                0 <= unit <= 0x1_0000_0000_0000_0000,
        ;
        lemma_aligned(mh as nat, sh as nat, ml as nat, sl as nat, n, subtract);
        lemma_pow2_pos(sl as nat);
        if n < 0 {
            assert(n * pow2(sl as nat) < 0) by (nonlinear_arith)
                requires
                    n < 0,
                    pow2(sl as nat) > 0,
            ;
        }
    }
    let digits: u128 = if subtract {
        mh as u128 * unit - ml as u128
    } else {
        mh as u128 * unit + ml as u128
    };
    compose(digits, sl)
}

/// The sum of two numbers, the larger in front.
fn ordered_sum(high: &Double, low: &Double) -> (r: Double)
    requires
        high.finite(),
        low.finite(),
        low.mag() <= high.mag(),
    ensures
        !r.nan(),
        r.value() == rounded_value(high.value() + low.value()),
{
    let (mh, sh): (u64, u64) = parts(high);
    let (ml, sl): (u64, u64) = parts(low);
    let negative: bool = high.bits >= SIGN_BIT;
    let subtract: bool = negative != (low.bits >= SIGN_BIT);
    let ghost (a, b) = (magnitude(high.mag()) as int, magnitude(low.mag()) as int);
    let ghost v = if subtract {
        a - b
    } else {
        a + b
    };
    proof {
        lemma_magnitude_order(low.mag(), high.mag());
        lemma_scales_are_ordered(low.mag(), high.mag());
        assert(high.value() + low.value() == if negative {
            -v
        } else {
            v
        });
        lemma_rounding_is_odd(v);
    }
    if sh - sl > 64 {
        proof {
            lemma_far_sum(mh as nat, sh as nat, ml as nat, sl as nat);
            lemma_doubles_are_exact(*high);
            assert(v >= 0);
            assert(nearest(v as nat) == a);
            assert(rounded_value(v) == a);
        }
        *high
    } else {
        let size: Double = combine(mh, sh, ml, sl, subtract);
        if negative {
            size.negate()
        } else {
            size
        }
    }
}

impl Double {
    /// The sum of two numbers. Infinities of both signs have none.
    pub fn plus(&self, other: &Double) -> (r: Double)
        requires
            !self.nan(),
            !other.nan(),
            self.finite() || other.finite(),
        ensures
            r == sum_of(*self, *other),
            !r.nan(),
            self.finite() && other.finite() ==> r.value() == rounded_value(
                self.value() + other.value(),
            ),
    {
        if !self.is_finite() {
            return *self;
        }
        if !other.is_finite() {
            return *other;
        }
        let r: Double = if self.bits % SIGN_BIT < other.bits % SIGN_BIT {
            ordered_sum(other, self)
        } else {
            ordered_sum(self, other)
        };
        let sum: Double = if r.bits == SIGN_BIT {
            Double { bits: 0 }
        } else {
            r
        };
        proof {
            lemma_magnitude_order(r.mag(), 0);
            lemma_double_at(sum);
        }
        sum
    }

    /// The difference of two numbers.
    pub fn minus(&self, other: &Double) -> (r: Double)
        requires
            !self.nan(),
            !other.nan(),
            self.finite() || other.finite(),
        ensures
            r == difference_of(*self, *other),
            !r.nan(),
            self.finite() && other.finite() ==> r.value() == rounded_value(
                self.value() - other.value(),
            ),
    {
        self.plus(&other.negate())
    }
}

/// What is larger has no smaller a scale.
proof fn lemma_scales_are_ordered(a: nat, b: nat)
    requires
        a <= b,
    ensures
        scale_of(a) <= scale_of(b),
{
    lemma_div_is_ordered(a as int, b as int, HIDDEN_BIT as int);
}

// -- Halves and floors -----------------------------------------------------

/// Half of a magnitude, rounded.
pub open spec fn half_of_natural(n: nat) -> nat {
    if n % 4 == 3 {
        n / 2 + 1
    } else {
        n / 2
    }
}

/// Half of a number, rounded. Infinity stays infinity.
pub open spec fn halved(d: Double) -> Double {
    if !d.finite() {
        d
    } else {
        double_at(
            if d.value() >= 0 {
                half_of_natural(d.value() as nat) as int
            } else {
                -(half_of_natural((-d.value()) as nat) as int)
            },
        )
    }
}

/// The whole number below a quotient by `d`. Negative numbers so small that the
/// quotient is rounded to zero have zero.
pub open spec fn quotient_floor(v: int, d: int) -> int {
    if v < 0 && -d <= 2 * v {
        0
    } else {
        v / (d * one())
    }
}

/// A pattern with an exponent lowered by one or two.
proof fn lemma_lower_exponent(mag: nat, k: nat)
    requires
        mag < INFINITY,
        1 <= k <= 2,
        exponent_field(mag) > k,
    ensures
        mag >= k * HIDDEN_BIT,
        magnitude(mag) == pow2(k) * magnitude((mag - k * HIDDEN_BIT) as nat),
        magnitude(mag) >= HIDDEN_BIT * pow2(k),
{
    let (q, f) = (mantissa(mag), exponent_field(mag));
    lemma_fundamental_div_mod(mag as int, HIDDEN_BIT as int);
    assert(mag == f * HIDDEN_BIT + (q - HIDDEN_BIT)) by (nonlinear_arith)
        requires
            mag == HIDDEN_BIT * f + (q - HIDDEN_BIT),
    ;
    lemma_compose(q, (f - k) as nat);
    assert((f - k) * HIDDEN_BIT == f * HIDDEN_BIT - k * HIDDEN_BIT) by (nonlinear_arith);
    assert(mag >= k * HIDDEN_BIT) by (nonlinear_arith)
        requires
            mag == f * HIDDEN_BIT + (q - HIDDEN_BIT),
            q >= HIDDEN_BIT,
            f > k,
    ;
    let (a, b) = (pow2(k) as int, pow2((f - k - 1) as nat) as int);
    lemma_pow2_adds(k, (f - k - 1) as nat);
    lemma_pow2_pos(k);
    lemma_pow2_pos((f - k - 1) as nat);
    assert(q * (a * b) == a * (q * b)) by (nonlinear_arith);
    assert(a * (q * b) >= HIDDEN_BIT * a) by (nonlinear_arith)
        requires
            q >= HIDDEN_BIT,
            b >= 1,
            a >= 1,
    ;
}

/// The smallest magnitudes are their own patterns.
proof fn lemma_small_patterns(mag: nat)
    requires
        mag < 2 * HIDDEN_BIT,
    ensures
        magnitude(mag) == mag,
{
    lemma2_to64();
    lemma_fundamental_div_mod(mag as int, HIDDEN_BIT as int);
    lemma_mul_basics(mantissa(mag) as int);
}

impl Double {
    /// Half of a number.
    pub fn half(&self) -> (r: Double)
        ensures
            r == halved(*self),
            r.finite() == self.finite(),
            r.nan() == self.nan(),
    {
        if !self.is_finite() {
            return *self;
        }
        let mag: u64 = self.bits % SIGN_BIT;
        let h: u64 = if mag / HIDDEN_BIT >= 2 {
            proof {
                lemma2_to64();
                lemma_lower_exponent(mag as nat, 1);
            }
            mag - HIDDEN_BIT
        } else {
            proof {
                lemma_small_patterns(mag as nat);
                lemma_small_patterns((mag / 2) as nat);
                lemma_small_patterns((mag / 2 + 1) as nat);
            }
            if mag % 4 == 3 {
                mag / 2 + 1
            } else {
                mag / 2
            }
        };
        proof {
            assert(magnitude(h as nat) == half_of_natural(magnitude(mag as nat)));
            lemma_magnitude_order(h as nat, 0);
        }
        if self.bits >= SIGN_BIT && h > 0 {
            let r: Double = Double { bits: h + SIGN_BIT };
            proof {
                assert(r.mag() == h);
                lemma_double_at(r);
            }
            r
        } else {
            let r: Double = Double { bits: h };
            proof {
                assert(r.mag() == h);
                lemma_double_at(r);
            }
            r
        }
    }

    /// The largest whole number that is not above a number, as a number.
    pub fn floored(&self) -> (r: Double)
        requires
            self.finite(),
        ensures
            r.finite(),
            r.value() == self.floor() * one(),
            r == double_at(r.value()),
    {
        let mag: u64 = self.bits % SIGN_BIT;
        let negative: bool = self.bits >= SIGN_BIT;
        let field: u64 = mag / HIDDEN_BIT;
        proof {
            lemma_pow2_pos(1074);
            lemma_magnitude_order(mag as nat, 0);
        }
        let r: Double = if field < 1023 {
            let n: i64 = if negative && mag != 0 {
                -1
            } else {
                0
            };
            proof {
                lemma_below_power(mag as nat);
                let m = magnitude(mag as nat) as int;
                if n == -1 {
                    assert(-m == one() * (-1) + (one() - m));
                    lemma_fundamental_div_mod_converse(-m, one(), -1, one() - m);
                } else {
                    lemma_fundamental_div_mod_converse(self.value(), one(), 0, self.value());
                }
            }
            Double::from_i64(n)
        } else if field >= 1075 {
            proof {
                let (m, s) = (mantissa(mag as nat) as int, scale_of(mag as nat));
                let k = (s - 1074) as nat;
                lemma_pow2_adds(1074, k);
                let p = pow2(k) as int;
                let n = if negative {
                    -(m * p)
                } else {
                    m * p
                };
                assert(self.value() == n * one()) by (nonlinear_arith)
                    requires
                        negative ==> self.value() == -(m * (one() * p)),
                        !negative ==> self.value() == m * (one() * p),
                        negative ==> n == -(m * p),
                        !negative ==> n == m * p,
                ;
                lemma_mul_is_commutative(n, one());
                lemma_fundamental_div_mod_converse(self.value(), one(), n, 0);
            }
            *self
        } else {
            let shift: u64 = 1075 - field;
            let digits: u64 = HIDDEN_BIT + mag % HIDDEN_BIT;
            let whole: u64 = digits >> shift;
            let rest: bool = (whole << shift) != digits;
            proof {
                lemma_split_mantissa(mag as nat, digits, shift, whole);
                vstd::bits::lemma_u64_shr_is_div(digits, shift);
                lemma_pow2_pos(shift as nat);
                lemma_pow2_unfold(shift as nat);
                lemma_pow2_pos((shift - 1) as nat);
                lemma_div_is_ordered_by_denominator(
                    digits as int,
                    2,
                    pow2(shift as nat) as int,
                );
            }
            let n: i64 = if negative {
                if rest {
                    -(whole as i64) - 1
                } else {
                    -(whole as i64)
                }
            } else {
                whole as i64
            };
            Double::from_i64(n)
        };
        proof {
            lemma_magnitude_order(r.mag(), 0);
        }
        let f: Double = if r.bits == SIGN_BIT {
            Double { bits: 0 }
        } else {
            r
        };
        proof {
            lemma_double_at(f);
        }
        f
    }

    /// The whole number below a half (`k` is 1) or a quarter (2) of a number.
    pub fn floor_of_part(&self, k: u64) -> (r: Double)
        requires
            self.finite(),
            1 <= k <= 2,
        ensures
            r.finite(),
            r.value() == quotient_floor(self.value(), pow2(k as nat) as int) * one(),
            r == double_at(r.value()),
    {
        let mag: u64 = self.bits % SIGN_BIT;
        let ghost d = pow2(k as nat) as int;
        let ghost v = self.value();
        proof {
            lemma2_to64();
            lemma_pow2_pos(1074);
            assert(d == 2 || d == 4);
            assert(d * one() > 0) by (nonlinear_arith)
                requires
                    d > 0,
                    one() > 0,
            ;
        }
        if mag / HIDDEN_BIT <= k {
            // So small that only the sign counts.
            let least: u64 = if k == 1 {
                1
            } else {
                2
            };
            let n: i64 = if self.bits >= SIGN_BIT && mag > least {
                -1
            } else {
                0
            };
            proof {
                lemma_below_power(mag as nat);
                lemma_magnitude_order(mag as nat, least as nat);
                lemma_magnitude_order(least as nat, mag as nat);
                lemma_small_patterns(least as nat);
                assert(d * one() >= one()) by (nonlinear_arith)
                    requires
                        d >= 1,
                        one() > 0,
                ;
                let m = magnitude(mag as nat) as int;
                lemma_magnitude_order(mag as nat, 0);
                if n == -1 {
                    assert(-m == (d * one()) * (-1) + (d * one() - m)) by (nonlinear_arith);
                    lemma_fundamental_div_mod_converse(-m, d * one(), -1, d * one() - m);
                } else if v >= 0 {
                    lemma_fundamental_div_mod_converse(v, d * one(), 0, v);
                }
            }
            let r: Double = Double::from_i64(n);
            proof {
                lemma_magnitude_order(r.mag(), 0);
            }
            if n == 0 {
                let zero: Double = Double { bits: 0 };
                proof {
                    lemma_mul_basics(one());
                    lemma_small_patterns(0);
                    lemma_double_at(zero);
                }
                zero
            } else {
                proof {
                    lemma_double_at(r);
                }
                r
            }
        } else {
            let y: Double = Double { bits: self.bits - k * HIDDEN_BIT };
            proof {
                lemma_lower_exponent(mag as nat, k as nat);
                assert(y.mag() == mag - k * HIDDEN_BIT);
                let w = y.value();
                assert(v == d * w) by (nonlinear_arith)
                    requires
                        v == d * w || (v == -(d * magnitude(y.mag())) && w == -(magnitude(
                            y.mag(),
                        ) as int)),
                ;
                lemma_fundamental_div_mod(w, one());
                lemma_mod_bound(w, one());
                let (q, rest) = (w / one(), w % one());
                assert(v == (d * one()) * q + d * rest) by (nonlinear_arith)
                    requires
                        v == d * w,
                        w == one() * q + rest,
                ;
                assert(0 <= d * rest < d * one()) by (nonlinear_arith)
                    requires
                        0 <= rest < one(),
                        d > 0,
                ;
                lemma_fundamental_div_mod_converse(v, d * one(), q, d * rest);
                assert(HIDDEN_BIT * pow2(k as nat) > 4) by (nonlinear_arith)
                    requires
                        pow2(k as nat) >= 1,
                ;
            }
            y.floored()
        }
    }
}

// -- What sums are ---------------------------------------------------------

/// Digits at a scale are a number, where they are not too long.
proof fn lemma_representable(m: nat, s: nat) -> (d: Double)
    requires
        m < 2 * HIDDEN_BIT,
        m * pow2(s) < beyond(),
    ensures
        d.finite(),
        !d.negative(),
        d.value() == m * pow2(s),
    decreases s,
{
    lemma2_to64();
    if m < HIDDEN_BIT && s > 0 {
        lemma_pow2_unfold(s);
        assert((2 * m) * pow2((s - 1) as nat) == m * (2 * pow2((s - 1) as nat)))
            by (nonlinear_arith);
        lemma_representable(2 * m, (s - 1) as nat)
    } else if m < HIDDEN_BIT {
        lemma_small_patterns(m);
        lemma_mul_basics(m as int);
        Double { bits: m as u64 }
    } else {
        if s >= 2046 {
            lemma2_to64_rest();
            lemma_pow2_adds(52, 2046);
            if s > 2046 {
                lemma_pow2_strictly_increases(2046, s);
            }
            assert(m * pow2(s) >= HIDDEN_BIT * pow2(2046)) by (nonlinear_arith)
                requires
                    m >= HIDDEN_BIT,
                    pow2(s) >= pow2(2046),
            ;
        }
        lemma_compose(m, s + 1);
        Double { bits: ((s + 1) * HIDDEN_BIT + (m - HIDDEN_BIT)) as u64 }
    }
}

/// There is a double for every rounded value.
proof fn lemma_rounded_exists(n: nat) -> (d: Double)
    ensures
        !d.nan(),
        !d.negative(),
        d.value() == rounded_value(n as int),
{
    lemma_infinity();
    if nearest(n) < beyond() {
        let e = excess_bits(n);
        let p = pow2(e) as int;
        lemma_pow2_pos(e);
        lemma_excess_bounds(n);
        lemma_fundamental_div_mod(n as int, p);
        lemma_mod_bound(n as int, p);
        let q = n as int / p;
        assert(q < 2 * HIDDEN_BIT) by (nonlinear_arith)
            requires
                n == p * q + n as int % p,
                n as int % p >= 0,
                n < 2 * HIDDEN_BIT * p,
                p > 0,
        ;
        lemma_div_pos_is_pos(n as int, p);
        if nearest(n) == q * p {
            lemma_representable(q as nat, e)
        } else if q + 1 < 2 * HIDDEN_BIT {
            lemma_representable((q + 1) as nat, e)
        } else {
            lemma_pow2_unfold(e + 1);
            assert(HIDDEN_BIT * pow2(e + 1) == (q + 1) * p) by (nonlinear_arith)
                requires
                    pow2(e + 1) == 2 * p,
                    q + 1 == 2 * HIDDEN_BIT,
            ;
            lemma_representable(HIDDEN_BIT as nat, e + 1)
        }
    } else {
        Double { bits: INFINITY }
    }
}

/// The same number with the other sign.
pub proof fn lemma_negated(d: Double)
    ensures
        d.negated().mag() == d.mag(),
        d.negated().value() == -d.value(),
        d.negated().nan() == d.nan(),
        d.negated().finite() == d.finite(),
{
    lemma_magnitude_order(d.mag(), 0);
}

/// A sum is what the exact one is rounded to.
pub proof fn lemma_sum_value(a: Double, b: Double)
    requires
        a.finite(),
        b.finite(),
    ensures
        !sum_of(a, b).nan(),
        sum_of(a, b).value() == rounded_value(a.value() + b.value()),
{
    let v = a.value() + b.value();
    lemma_pow2_pos(2098);
    if v >= 0 {
        let d = lemma_rounded_exists(v as nat);
        lemma_double_at(d);
    } else {
        let d = lemma_rounded_exists((-v) as nat);
        lemma_rounding_is_odd(v);
        lemma_negated(d);
        lemma_magnitude_order(d.mag(), 0);
        if d.value() > 0 {
            lemma_double_at(d.negated());
        } else {
            lemma_double_at(d);
        }
    }
}

/// Half of a number lies between it and zero.
pub proof fn lemma_half_bounds(d: Double)
    requires
        d.finite(),
        d.value() >= 0,
    ensures
        halved(d).finite(),
        0 <= halved(d).value() <= d.value(),
        d.value() % 4 != 3 ==> halved(d).value() == d.value() / 2,
        d.value() % 4 == 3 ==> halved(d).value() == d.value() / 2 + 1,
{
    let mag = d.mag();
    let h: nat = if exponent_field(mag) >= 2 {
        lemma2_to64();
        lemma_lower_exponent(mag, 1);
        (mag - HIDDEN_BIT) as nat
    } else {
        lemma_small_patterns(mag);
        lemma_small_patterns(half_of_natural(mag));
        half_of_natural(mag)
    };
    let r = Double { bits: h as u64 };
    assert(r.mag() == h);
    lemma_magnitude_order(mag, 0);
    assert(d.value() == magnitude(mag));
    lemma_double_at(r);
}

/// Half of a whole number is exact.
pub proof fn lemma_half_of_whole(d: Double, m: int)
    requires
        d.finite(),
        m >= 0,
        d.value() == m * one(),
    ensures
        halved(d).finite(),
        2 * halved(d).value() == m * one(),
{
    lemma_pow2_pos(1074);
    assert(m * one() >= 0) by (nonlinear_arith)
        requires
            m >= 0,
            one() > 0,
    ;
    lemma_half_bounds(d);
    lemma_pow2_unfold(1074);
    let h = pow2(1073) as int;
    assert(m * one() == 2 * (m * h)) by (nonlinear_arith)
        requires
            one() == 2 * h,
    ;
}

/// Numbers far from the largest ones stay so when they are rounded.
proof fn lemma_moderate(n: nat)
    requires
        n <= pow2(2000),
    ensures
        nearest(n) <= pow2(2000),
        pow2(2000) < beyond(),
{
    lemma_short_is_exact(1);
    lemma_nearest_scales(1, 2000);
    lemma_mul_basics(pow2(2000) as int);
    lemma_nearest_is_monotone(n, pow2(2000));
    lemma_pow2_strictly_increases(2000, 2098);
}

/// What is not infinite is finite.
proof fn lemma_finite_value(d: Double)
    requires
        !d.nan(),
        -beyond() < d.value() < beyond(),
    ensures
        d.finite(),
{
    lemma_infinity();
    lemma_magnitude_order(d.mag(), INFINITY as nat);
}

/// The double of a whole number.
pub proof fn lemma_whole_double(n: nat)
    requires
        n <= u64::MAX,
    ensures
        double_of(n as int).finite(),
        !double_of(n as int).negative(),
        double_of(n as int).value() == nearest(n) * one(),
        n < 2 * HIDDEN_BIT ==> double_of(n as int).value() == n * one(),
        double_of(n as int).value() >= 0,
        nearest(n) * one() <= pow2(1138),
{
    let v = n * pow2(1074);
    lemma2_to64();
    lemma_pow2_pos(1074);
    lemma_pow2_adds(64, 1074);
    lemma_pow2_strictly_increases(1138, 2000);
    assert(v <= pow2(64) * pow2(1074)) by (nonlinear_arith)
        requires
            v == n * pow2(1074),
            n <= pow2(64),
    ;
    lemma_moderate(v);
    lemma_nearest_scales(n, 1074);
    lemma_short_is_exact(1);
    lemma_nearest_scales(1, 1138);
    lemma_mul_basics(pow2(1138) as int);
    lemma_nearest_is_monotone(v, pow2(1138));
    let d = lemma_rounded_exists(v);
    lemma_finite_value(d);
    assert(d.value() == nearest(n) * one());
    if n < 2 * HIDDEN_BIT {
        lemma_short_is_exact(n);
    }
}

/// The difference of whole numbers is finite.
pub proof fn lemma_moderate_difference(a: Double, b: Double, x: int, n: nat)
    requires
        a.finite(),
        b.finite(),
        -(2 * HIDDEN_BIT) < x < 2 * HIDDEN_BIT,
        a.value() == x * one(),
        n <= u64::MAX,
        b.value() == nearest(n) * one(),
    ensures
        difference_of(a, b).finite(),
{
    lemma_negated(b);
    lemma_sum_value(a, b.negated());
    lemma_whole_double(n);
    lemma2_to64_rest();
    lemma_pow2_pos(1074);
    lemma_pow2_adds(53, 1074);
    lemma_pow2_strictly_increases(1127, 1138);
    lemma_pow2_unfold(1139);
    lemma_pow2_strictly_increases(1139, 2000);
    assert(-pow2(1127) <= x * one() <= pow2(1127)) by (nonlinear_arith)
        requires
            pow2(1127) == pow2(53) * one(),
            -pow2(53) <= x <= pow2(53),
            one() > 0,
    ;
    let v = a.value() - b.value();
    if v >= 0 {
        lemma_moderate(v as nat);
    } else {
        lemma_moderate((-v) as nat);
    }
    lemma_finite_value(difference_of(a, b));
}

/// Sums of multiples of one half that are short enough are exact.
pub proof fn lemma_whole_sums(a: Double, b: Double, x: int, y: int)
    requires
        a.finite(),
        b.finite(),
        2 * a.value() == x * one(),
        2 * b.value() == y * one(),
        -HIDDEN_BIT < x < HIDDEN_BIT,
        -HIDDEN_BIT < y < HIDDEN_BIT,
    ensures
        sum_of(a, b).finite(),
        difference_of(a, b).finite(),
        2 * sum_of(a, b).value() == (x + y) * one(),
        2 * difference_of(a, b).value() == (x - y) * one(),
{
    lemma_negated(b);
    lemma_mul_is_distributive_add_other_way(one(), x, y);
    lemma_mul_is_distributive_sub_other_way(one(), x, y);
    lemma_half_units(a.value() + b.value(), x + y);
    lemma_half_units(a.value() - b.value(), x - y);
    lemma_sum_value(a, b);
    lemma_sum_value(a, b.negated());
    lemma_finite_value(sum_of(a, b));
    lemma_finite_value(difference_of(a, b));
}

/// A multiple of one half that is short enough is not rounded.
proof fn lemma_half_units(v: int, n: int)
    requires
        2 * v == n * one(),
        -(2 * HIDDEN_BIT) < n < 2 * HIDDEN_BIT,
    ensures
        rounded_value(v) == v,
        -beyond() < v < beyond(),
{
    lemma2_to64_rest();
    lemma_pow2_unfold(1074);
    lemma_pow2_pos(1073);
    lemma_pow2_adds(53, 1073);
    lemma_pow2_strictly_increases(1126, 2098);
    let h = pow2(1073) as int;
    assert(v == n * h) by (nonlinear_arith)
        requires
            2 * v == n * one(),
            one() == 2 * h,
    ;
    let m = if n >= 0 {
        n as nat
    } else {
        (-n) as nat
    };
    lemma_short_is_exact(m);
    lemma_nearest_scales(m, 1073);
    assert(m * h <= pow2(53) * h) by (nonlinear_arith)
        requires
            m <= pow2(53),
            h > 0,
    ;
    assert((-n) * h == -(n * h)) by (nonlinear_arith);
    assert(0 <= m * h) by (nonlinear_arith)
        requires
            m >= 0,
            h > 0,
    ;
}

/// A whole number of no more than 53 bits is kept; a longer one goes to the
/// nearest multiple of the unit of its last kept bit, of two that are equally
/// near to the even one.
pub proof fn law_rounding_goes_to_the_nearest(n: nat, e: nat)
    requires
        n < 0x20_0000_0000_0000 * pow2(e),
        e > 0 ==> 0x10_0000_0000_0000 * pow2(e) <= n,
    ensures
        e == 0 ==> nearest(n) == n,
        -(pow2(e) as int) <= 2 * (nearest(n) - n) <= pow2(e),
        nearest(n) as int % pow2(e) as int == 0,
        2 * (nearest(n) - n) == pow2(e) || 2 * (nearest(n) - n) == -(pow2(e) as int) ==> nearest(n)
            as int / pow2(e) as int % 2 == 0,
{
    lemma_excess_bits(n, e);
    lemma_pow2_pos(e);
    let p = pow2(e) as int;
    let (q, r) = (n as int / p, n as int % p);
    lemma_fundamental_div_mod(n as int, p);
    lemma_mod_bound(n as int, p);
    assert(q * p == p * q && (q + 1) * p == p * q + p) by (nonlinear_arith);
    lemma_mod_multiples_basic(q, p);
    lemma_mod_multiples_basic(q + 1, p);
    lemma_div_by_multiple(q, p);
    lemma_div_by_multiple(q + 1, p);
    if e == 0 {
        lemma_short_is_exact(n);
        lemma2_to64();
    }
}

/// Sums do not depend on the order of their terms, and adding a negated number is
/// taking the number away.
pub proof fn law_sums_commute(a: Double, b: Double)
    requires
        a.finite(),
        b.finite(),
    ensures
        sum_of(a, b) == sum_of(b, a),
        difference_of(a, b.negated()) == sum_of(a, b),
{
    crate::double::law_negation_turns_the_sign(b);
}

/// Twice the half of a number is the number, up to a single one of the smallest
/// units that there are.
pub proof fn law_halves_are_halves(d: Double)
    requires
        d.finite(),
        d.value() >= 0,
    ensures
        halved(d).finite(),
        -1 <= 2 * halved(d).value() - d.value() <= 1,
        d.value() % 2 == 0 ==> 2 * halved(d).value() == d.value(),
{
    lemma_half_bounds(d);
}

/// The whole number below a quotient is at it or next below it. A negative number
/// so small that the quotient vanishes has zero.
pub proof fn law_quotients_are_rounded_down(v: int, d: int)
    requires
        d > 0,
    ensures
        v >= 0 || 2 * v < -d ==> quotient_floor(v, d) * (d * one()) <= v < (quotient_floor(v, d) + 1)
            * (d * one()),
        -d <= 2 * v < 0 ==> quotient_floor(v, d) == 0,
{
    lemma_pow2_pos(1074);
    let u = d * one();
    assert(u > 0) by (nonlinear_arith)
        requires
            d > 0,
            one() > 0,
            u == d * one(),
    ;
    lemma_fundamental_div_mod(v, u);
    lemma_mod_bound(v, u);
    let q = v / u;
    assert(q * u == u * q && (q + 1) * u == u * q + u) by (nonlinear_arith);
}

} // verus!
